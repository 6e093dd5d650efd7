//! What holds of every ingestion: laws that relate several operations of
//! the registry.

use vstd::prelude::*;
use crate::chain::{replayable, BlockView};
use crate::registry::{
    canonical, forks, forks_within, lemma_accepts_root, lemma_canonical, lemma_fork_found,
    lemma_ingest_valid, Registry,
};

verus! {

/// Whether some block of some branch carries the name `id`.
pub open spec fn known(chains: Seq<Seq<BlockView>>, id: Seq<char>) -> bool {
    exists|c: int, i: int|
        0 <= c < chains.len() && 0 <= i < chains[c].len() && (#[trigger] chains[c][i]).block_id
            == id
}

proof fn lemma_no_forks_within(
    chain: Seq<BlockView>,
    block: BlockView,
    parent: Seq<char>,
    upto: int,
)
    requires
        0 <= upto <= chain.len(),
        forall|i: int| 0 <= i < upto ==> (#[trigger] chain[i]).block_id != parent,
    ensures
        forks_within(chain, block, parent, upto).len() == 0,
    decreases upto,
{
    if upto > 0 {
        lemma_no_forks_within(chain, block, parent, upto - 1);
    }
}

proof fn lemma_no_forks(
    chains: Seq<Seq<BlockView>>,
    block: BlockView,
    parent: Seq<char>,
    upto: int,
)
    requires
        0 <= upto <= chains.len(),
        !known(chains, parent),
    ensures
        forks(chains, block, parent, upto).len() == 0,
    decreases upto,
{
    if upto > 0 {
        lemma_no_forks(chains, block, parent, upto - 1);
        let chain = chains[upto - 1];
        assert forall|i: int| 0 <= i < chain.len() implies (#[trigger] chain[i]).block_id
            != parent by {
            assert(chains[upto - 1][i] == chain[i]);
        }
        lemma_no_forks_within(chain, block, parent, chain.len() as int);
    }
}

/// Orphans: a block whose parent is neither a tip nor any block of any
/// branch is accepted and leaves the registry as it was; a block whose
/// parent is no tip but some block of some branch adds a branch.
pub proof fn lemma_orphan(registry: Registry, block: BlockView, parent: Seq<char>)
    requires
        registry.valid(),
        block.parent_id == Some(parent),
        !registry.tips.contains_key(parent),
    ensures
        !known(registry.chains, parent) ==> registry.accepts(block) && registry.ingest(block)
            == registry,
        known(registry.chains, parent) ==> registry.ingest(block).chains.len()
            > registry.chains.len(),
{
    let n = registry.chains.len() as int;
    if known(registry.chains, parent) {
        let (c, i) = choose|c: int, i: int|
            0 <= c < registry.chains.len() && 0 <= i < registry.chains[c].len() && (
            #[trigger] registry.chains[c][i]).block_id == parent;
        lemma_fork_found(registry.chains, block, parent, c, i + 1);
    } else {
        lemma_no_forks(registry.chains, block, parent, n);
        assert forall|i: int| 0 <= i < registry.chains.len() implies replayable(
            #[trigger] registry.chains[i],
        ) by {
            assert(registry.branch_valid(i));
        }
    }
}

/// Fork isolation: a block that names no tip as its parent, and does not
/// itself carry the name of a tip, leaves every branch, every ledger and
/// every tip as they were, whatever it adds.
///
/// A block that carries the name of a tip is left out: when it forks, the
/// tip of that name passes to the newest fork.
pub proof fn lemma_fork_isolation(registry: Registry, block: BlockView, parent: Seq<char>)
    requires
        registry.valid(),
        block.parent_id == Some(parent),
        !registry.tips.contains_key(parent),
        !registry.tips.contains_key(block.block_id),
    ensures
        registry.after(block).chains.len() >= registry.chains.len(),
        registry.after(block).states.len() == registry.after(block).chains.len(),
        forall|i: int|
            0 <= i < registry.chains.len() ==> #[trigger] registry.after(block).chains[i]
                == registry.chains[i],
        forall|i: int|
            0 <= i < registry.chains.len() ==> #[trigger] registry.after(block).states[i]
                == registry.states[i],
        forall|id: Seq<char>| #[trigger]
            registry.tips.contains_key(id) ==> registry.after(block).tips.contains_key(id)
                && registry.after(block).tips[id] == registry.tips[id],
{
}

/// Existing branches under any fork: a block that names no tip as its
/// parent leaves every branch and every ledger as they were, and every tip
/// but one of its own name.
pub proof fn lemma_fork_keeps_branches(registry: Registry, block: BlockView, parent: Seq<char>)
    requires
        registry.valid(),
        block.parent_id == Some(parent),
        !registry.tips.contains_key(parent),
    ensures
        registry.after(block).chains.len() >= registry.chains.len(),
        forall|i: int|
            0 <= i < registry.chains.len() ==> #[trigger] registry.after(block).chains[i]
                == registry.chains[i],
        forall|i: int|
            0 <= i < registry.chains.len() ==> #[trigger] registry.after(block).states[i]
                == registry.states[i],
        forall|id: Seq<char>| #[trigger]
            registry.tips.contains_key(id) && id != block.block_id ==> registry.after(
                block,
            ).tips.contains_key(id) && registry.after(block).tips[id] == registry.tips[id],
{
}

/// A root taken in twice: the second ingestion is accepted exactly where
/// the first was. Where it is, it adds a second branch with the same block
/// and the same ledger, which takes the tip over. Either way, no balance
/// query is answered differently after the second ingestion than after the
/// first.
pub proof fn lemma_root_twice(registry: Registry, block: BlockView)
    requires
        registry.valid(),
        block.parent_id is None,
    ensures
        ({
            let once = registry.after(block);
            let twice = once.after(block);
            &&& once.accepts(block) == registry.accepts(block)
            &&& registry.accepts(block) ==> {
                &&& twice.chains == once.chains.push(seq![block])
                &&& twice.states == once.states.push(once.states.last())
                &&& twice.tips == once.tips.insert(block.block_id, once.chains.len())
            }
            &&& forall|account: Seq<char>| #[trigger]
                twice.balance(account) == once.balance(account)
        }),
{
    let once = registry.after(block);
    let twice = once.after(block);
    lemma_accepts_root(registry, block);
    if registry.accepts(block) {
        lemma_ingest_valid(registry, block);
        lemma_accepts_root(once, block);
        let last = once.states.len() - 1;
        let chosen = canonical(once.states);
        lemma_canonical(once.states);
        assert(twice.states.drop_last() =~= once.states);
        assert(twice.states[chosen] == once.states[chosen]);
        assert(twice.states.last() == once.states[last]);
        if chosen < last {
            assert(once.states[last].dom().len() < once.states[chosen].dom().len());
            assert(canonical(twice.states) == chosen);
        } else {
            assert(canonical(twice.states) == twice.states.len() - 1);
        }
        assert(twice.states[canonical(twice.states)] == once.states[chosen]);
    } else {
        lemma_accepts_root(once, block);
    }
}

/// Branches accumulate: no ingestion removes a branch, and none removes or
/// replaces a block of a branch.
pub proof fn lemma_branches_grow(registry: Registry, block: BlockView)
    requires
        registry.valid(),
    ensures
        registry.after(block).chains.len() >= registry.chains.len(),
        forall|i: int|
            0 <= i < registry.chains.len() ==> (#[trigger] registry.chains[i]).is_prefix_of(
                registry.after(block).chains[i],
            ),
{
    let after = registry.after(block);
    assert(after.chains.len() >= registry.chains.len()) by {
        if registry.accepts(block) {
            match block.parent_id {
                None => {},
                Some(parent) => {
                    if registry.tips.contains_key(parent) {
                        assert(registry.tip_valid(parent));
                        assert(after == registry.extend(
                            registry.tips[parent] as int,
                            block,
                            parent,
                        ));
                    } else {
                        assert(after == registry.fork(block, parent));
                    }
                },
            }
        }
    }
    assert forall|i: int| 0 <= i < registry.chains.len() implies (
    #[trigger] registry.chains[i]).is_prefix_of(after.chains[i]) by {
        let chain = registry.chains[i];
        if registry.accepts(block) {
            match block.parent_id {
                None => {},
                Some(parent) => {
                    if registry.tips.contains_key(parent) {
                        assert(registry.tip_valid(parent));
                        if i == registry.tips[parent] {
                            assert(chain.push(block).subrange(0, chain.len() as int) =~= chain);
                        }
                    }
                },
            }
        }
        assert(chain.subrange(0, chain.len() as int) =~= chain);
    }
}

} // verus!