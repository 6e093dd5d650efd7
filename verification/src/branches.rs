//! Work on stored branches: cutting forks off chains, rebuilding the ledgers
//! of chains, and checking the shape of chains and tips.

use vstd::prelude::*;
use vstd::hash_map::StringHashMap;
use vstd::string::*;
use crate::chain::{
    block_views, is_linked, linked, rebuild, replayable, snapshot_of, Block, BlockView,
};
use crate::error::ServiceError;
use crate::ledger::{Balances, Ledger};
use crate::registry::{entry_valid, forks, forks_within, lemma_fork_found, snapshots_of, tips_of};

verus! {

/// The views of stored chains.
pub open spec fn chain_views(chains: Seq<Vec<Block>>) -> Seq<Seq<BlockView>> {
    chains.map_values(|chain: Vec<Block>| block_views(chain@))
}

/// The views of stored ledgers.
pub open spec fn ledger_views(states: Seq<Ledger>) -> Seq<Balances> {
    states.map_values(|ledger: Ledger| ledger@)
}

/// A stored tip index with its branch numbers as naturals.
pub open spec fn tip_views(tips: Map<Seq<char>, usize>) -> Map<Seq<char>, nat> {
    tips.map_values(|at: usize| at as nat)
}

/// Tip entries as contracts see them.
pub open spec fn entry_views(entries: Seq<(String, usize)>) -> Seq<(Seq<char>, nat)> {
    entries.map_values(|entry: (String, usize)| (entry.0@, entry.1 as nat))
}

/// Whether the ledger at `k` is the ledger of the chain at `k`, which can be
/// replayed.
pub open spec fn rebuilt_at(chains: Seq<Vec<Block>>, states: Seq<Ledger>, k: int) -> bool {
    &&& states[k]@ == snapshot_of(block_views(chains[k]@))
    &&& replayable(block_views(chains[k]@))
}

/// Whether there is one ledger for each chain, rebuilt from it.
pub open spec fn rebuilt(chains: Seq<Vec<Block>>, states: Seq<Ledger>) -> bool {
    &&& states.len() == chains.len()
    &&& forall|k: int| 0 <= k < chains.len() ==> #[trigger] rebuilt_at(chains, states, k)
}

/// One more chain with its ledger keeps the ledgers rebuilt.
pub proof fn lemma_rebuilt_push(
    chains: Seq<Vec<Block>>,
    states: Seq<Ledger>,
    chain: Vec<Block>,
    state: Ledger,
)
    requires
        rebuilt(chains, states),
        state@ == snapshot_of(block_views(chain@)),
        replayable(block_views(chain@)),
    ensures
        rebuilt(chains.push(chain), states.push(state)),
        chain_views(chains.push(chain)) == chain_views(chains).push(block_views(chain@)),
{
    let more_chains = chains.push(chain);
    let more_states = states.push(state);
    assert forall|k: int| 0 <= k < more_chains.len() implies #[trigger] rebuilt_at(
        more_chains,
        more_states,
        k,
    ) by {
        if k < chains.len() {
            assert(rebuilt_at(chains, states, k));
        }
    }
    assert(chain_views(more_chains) =~= chain_views(chains).push(block_views(chain@)));
}

/// Rebuilt ledgers are the ledgers of their chains, and every chain can be
/// replayed.
pub proof fn lemma_rebuilt_views(chains: Seq<Vec<Block>>, states: Seq<Ledger>)
    requires
        rebuilt(chains, states),
    ensures
        ledger_views(states) == snapshots_of(chain_views(chains)),
        forall|k: int| 0 <= k < chains.len() ==> replayable(#[trigger] chain_views(chains)[k]),
{
    assert forall|k: int| 0 <= k < chains.len() implies replayable(
        #[trigger] chain_views(chains)[k],
    ) && ledger_views(states)[k] == snapshot_of(chain_views(chains)[k]) by {
        assert(rebuilt_at(chains, states, k));
    }
    assert(ledger_views(states) =~= snapshots_of(chain_views(chains)));
}

/// The first `cut` blocks of `chain`, then `block`.
pub(crate) fn branch_off(chain: &Vec<Block>, cut: usize, block: &Block) -> (fork: Vec<Block>)
    requires
        cut <= chain.len(),
    ensures
        block_views(fork@) == block_views(chain@).take(cut as int).push(block@),
{
    let mut fork: Vec<Block> = Vec::new();
    let mut i: usize = 0;
    while i < cut
        invariant
            i <= cut <= chain.len(),
            fork.len() == i,
            block_views(fork@) == block_views(chain@).take(i as int),
        decreases cut - i,
    {
        let ghost shorter = fork@;
        fork.push(chain[i].clone());
        proof {
            assert forall|k: int| 0 <= k < i + 1 implies block_views(fork@)[k] == block_views(
                chain@,
            ).take(i + 1)[k] by {
                if k < i {
                    assert(block_views(shorter)[k] == block_views(chain@).take(i as int)[k]);
                }
            }
            assert(block_views(fork@) =~= block_views(chain@).take(i + 1));
        }
        i += 1;
    }
    let ghost shorter = fork@;
    fork.push(block.clone());
    proof {
        assert forall|k: int| 0 <= k < cut + 1 implies block_views(fork@)[k] == block_views(
            chain@,
        ).take(cut as int).push(block@)[k] by {
            if k < cut {
                assert(block_views(shorter)[k] == block_views(chain@).take(cut as int)[k]);
            }
        }
        assert(block_views(fork@) =~= block_views(chain@).take(cut as int).push(block@));
    }
    fork
}

/// Adds to `found` the forks that `block` makes off the blocks of `chain`
/// named `parent`, each with its rebuilt ledger; or reports the overflow of
/// the first fork that cannot be replayed.
pub(crate) fn collect_forks_within(
    chain: &Vec<Block>,
    block: &Block,
    parent: &String,
    found: &mut Vec<Vec<Block>>,
    ledgers: &mut Vec<Ledger>,
) -> (outcome: Result<(), ServiceError>)
    requires
        rebuilt(old(found)@, old(ledgers)@),
    ensures
        outcome is Ok ==> rebuilt(final(found)@, final(ledgers)@) && chain_views(final(found)@)
            == chain_views(old(found)@) + forks_within(
            block_views(chain@),
            block@,
            parent@,
            chain.len() as int,
        ),
        outcome matches Err(error) ==> error == ServiceError::BalanceOverflow && exists|cut: int|
            0 < cut <= chain.len() && block_views(chain@)[cut - 1].block_id == parent@
                && !replayable(#[trigger] block_views(chain@).take(cut).push(block@)),
{
    let ghost source = block_views(chain@);
    let ghost earlier = chain_views(found@);
    let mut i: usize = 0;
    assert(earlier + forks_within(source, block@, parent@, 0) =~= earlier);
    while i < chain.len()
        invariant
            i <= chain.len(),
            source == block_views(chain@),
            rebuilt(found@, ledgers@),
            chain_views(found@) == earlier + forks_within(source, block@, parent@, i as int),
        decreases chain.len() - i,
    {
        assert(source[i as int] == chain[i as int]@);
        if chain[i].block_id == *parent {
            let fork = branch_off(chain, i + 1, block);
            match rebuild(&fork) {
                Err(error) => {
                    assert(!replayable(source.take(i + 1).push(block@)));
                    return Err(error);
                },
                Ok(state) => {
                    proof {
                        lemma_rebuilt_push(found@, ledgers@, fork, state);
                        assert(chain_views(found@).push(block_views(fork@)) =~= earlier
                            + forks_within(source, block@, parent@, i + 1));
                    }
                    found.push(fork);
                    ledgers.push(state);
                },
            }
        }
        i += 1;
    }
    Ok(())
}

/// The forks that `block` makes off the blocks named `parent` in any of the
/// chains, each with its rebuilt ledger; or the overflow of the first fork
/// that cannot be replayed.
pub(crate) fn collect_forks(chains: &Vec<Vec<Block>>, block: &Block, parent: &String) -> (outcome: Result<
    (Vec<Vec<Block>>, Vec<Ledger>),
    ServiceError,
>)
    ensures
        outcome matches Ok(pair) ==> rebuilt(pair.0@, pair.1@) && chain_views(pair.0@) == forks(
            chain_views(chains@),
            block@,
            parent@,
            chains.len() as int,
        ),
        outcome matches Err(error) ==> error == ServiceError::BalanceOverflow && exists|k: int|
            0 <= k < forks(chain_views(chains@), block@, parent@, chains.len() as int).len()
                && !replayable(
                #[trigger] forks(chain_views(chains@), block@, parent@, chains.len() as int)[k],
            ),
{
    let ghost views = chain_views(chains@);
    let mut found: Vec<Vec<Block>> = Vec::new();
    let mut ledgers: Vec<Ledger> = Vec::new();
    let mut c: usize = 0;
    assert(chain_views(found@) =~= forks(views, block@, parent@, 0));
    while c < chains.len()
        invariant
            c <= chains.len(),
            views == chain_views(chains@),
            rebuilt(found@, ledgers@),
            chain_views(found@) == forks(views, block@, parent@, c as int),
        decreases chains.len() - c,
    {
        assert(views[c as int] == block_views(chains[c as int]@));
        match collect_forks_within(&chains[c], block, parent, &mut found, &mut ledgers) {
            Err(error) => {
                proof {
                    let source = views[c as int];
                    let cut = choose|cut: int|
                        0 < cut <= source.len() && source[cut - 1].block_id == parent@
                            && !replayable(#[trigger] source.take(cut).push(block@));
                    lemma_fork_found(views, block@, parent@, c as int, cut);
                    let at = (forks(views, block@, parent@, c as int).len() + forks_within(
                        source,
                        block@,
                        parent@,
                        cut - 1,
                    ).len()) as int;
                    assert(!replayable(forks(views, block@, parent@, chains.len() as int)[at]));
                }
                return Err(error);
            },
            Ok(()) => {},
        }
        c += 1;
    }
    Ok((found, ledgers))
}

/// The ledger of each chain, rebuilt from its first block; or the overflow
/// of the first chain that cannot be replayed.
pub(crate) fn rebuild_all(chains: &Vec<Vec<Block>>) -> (outcome: Result<Vec<Ledger>, ServiceError>)
    ensures
        outcome matches Ok(states) ==> rebuilt(chains@, states@),
        outcome matches Err(error) ==> error == ServiceError::BalanceOverflow && exists|k: int|
            0 <= k < chains.len() && !replayable(#[trigger] chain_views(chains@)[k]),
{
    let mut states: Vec<Ledger> = Vec::new();
    let mut c: usize = 0;
    while c < chains.len()
        invariant
            c <= chains.len(),
            rebuilt(chains@.take(c as int), states@),
        decreases chains.len() - c,
    {
        match rebuild(&chains[c]) {
            Ok(state) => {
                proof {
                    lemma_rebuilt_push(chains@.take(c as int), states@, chains[c as int], state);
                    assert(chains@.take(c as int).push(chains[c as int]) =~= chains@.take(c + 1));
                }
                states.push(state);
            },
            Err(error) => {
                assert(!replayable(chain_views(chains@)[c as int]));
                return Err(error);
            },
        }
        c += 1;
    }
    assert(chains@.take(c as int) =~= chains@);
    Ok(states)
}

/// Whether every chain has a block and is linked from block to block.
pub(crate) fn all_linked(chains: &Vec<Vec<Block>>) -> (answer: bool)
    ensures
        answer == forall|i: int|
            0 <= i < chains.len() ==> (#[trigger] chain_views(chains@)[i]).len() > 0 && linked(
                chain_views(chains@)[i],
            ),
{
    let ghost views = chain_views(chains@);
    let mut c: usize = 0;
    while c < chains.len()
        invariant
            c <= chains.len(),
            views == chain_views(chains@),
            forall|k: int| 0 <= k < c ==> (#[trigger] views[k]).len() > 0 && linked(views[k]),
        decreases chains.len() - c,
    {
        assert(views[c as int] == block_views(chains[c as int]@));
        if chains[c].len() == 0 || !is_linked(&chains[c]) {
            assert(!(views[c as int].len() > 0 && linked(views[c as int])));
            return false;
        }
        c += 1;
    }
    true
}

/// The tip index that the entries give, where each of them names a chain
/// that ends in the block of its name; nothing where one does not.
pub(crate) fn index_tips(chains: &Vec<Vec<Block>>, tips: &Vec<(String, usize)>) -> (outcome: Option<
    StringHashMap<usize>,
>)
    ensures
        outcome is Some <==> forall|j: int|
            0 <= j < tips.len() ==> entry_valid(
                chain_views(chains@),
                #[trigger] entry_views(tips@)[j],
            ),
        outcome matches Some(index) ==> tip_views(index@) == tips_of(entry_views(tips@)),
{
    let ghost views = chain_views(chains@);
    let ghost listed = entry_views(tips@);
    let mut index: StringHashMap<usize> = StringHashMap::new();
    let mut j: usize = 0;
    assert(tip_views(index@) =~= tips_of(listed.take(0)));
    while j < tips.len()
        invariant
            j <= tips.len(),
            views == chain_views(chains@),
            listed == entry_views(tips@),
            forall|k: int| 0 <= k < j ==> entry_valid(views, #[trigger] listed[k]),
            tip_views(index@) == tips_of(listed.take(j as int)),
        decreases tips.len() - j,
    {
        let at = tips[j].1;
        assert(listed[j as int] == (tips[j as int].0@, at as nat));
        if at >= chains.len() {
            assert(!entry_valid(views, listed[j as int]));
            return None;
        }
        let chain = &chains[at];
        assert(views[at as int] == block_views(chain@));
        if chain.len() == 0 {
            assert(!entry_valid(views, listed[j as int]));
            return None;
        }
        if chain[chain.len() - 1].block_id != tips[j].0 {
            assert(!entry_valid(views, listed[j as int]));
            return None;
        }
        index.insert(tips[j].0.clone(), at);
        proof {
            assert(listed.take(j + 1).drop_last() =~= listed.take(j as int));
            assert(listed.take(j + 1).last() == listed[j as int]);
            assert(tip_views(index@) =~= tips_of(listed.take(j + 1)));
        }
        j += 1;
    }
    assert(listed.take(j as int) =~= listed);
    Some(index)
}

} // verus!
