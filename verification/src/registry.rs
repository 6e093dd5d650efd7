//! The branch registry as contracts see it, and what ingesting a block and
//! choosing the canonical branch mean on it.

use vstd::prelude::*;
use crate::chain::{lemma_replay_extension, linked, replayable, snapshot_of, BlockView};
use crate::error::ServiceError;
use crate::ledger::{replay, replay_within_limits, within_limits, Balances};

verus! {

/// The branches that arise where `block` follows a block named `parent`
/// among the first `upto` blocks of `chain`: for each such block, the chain
/// up to and including it, then `block`. They come in the order of the
/// blocks they fork off.
pub open spec fn forks_within(
    chain: Seq<BlockView>,
    block: BlockView,
    parent: Seq<char>,
    upto: int,
) -> Seq<Seq<BlockView>>
    decreases upto,
{
    if upto <= 0 {
        Seq::empty()
    } else {
        let earlier = forks_within(chain, block, parent, upto - 1);
        if chain[upto - 1].block_id == parent {
            earlier.push(chain.take(upto).push(block))
        } else {
            earlier
        }
    }
}

/// The branches that arise where `block` follows a block named `parent`
/// anywhere in the first `upto` of the `chains`, chain by chain.
pub open spec fn forks(
    chains: Seq<Seq<BlockView>>,
    block: BlockView,
    parent: Seq<char>,
    upto: int,
) -> Seq<Seq<BlockView>>
    decreases upto,
{
    if upto <= 0 {
        Seq::empty()
    } else {
        forks(chains, block, parent, upto - 1) + forks_within(
            chains[upto - 1],
            block,
            parent,
            chains[upto - 1].len() as int,
        )
    }
}

/// The ledgers of a sequence of branches.
pub open spec fn snapshots_of(chains: Seq<Seq<BlockView>>) -> Seq<Balances> {
    chains.map_values(|chain: Seq<BlockView>| snapshot_of(chain))
}

/// Whether the branch at `at` has the greatest number of accounts, and more
/// accounts than every branch after it.
pub open spec fn is_canonical(states: Seq<Balances>, at: int) -> bool {
    &&& 0 <= at < states.len()
    &&& forall|i: int|
        0 <= i < states.len() ==> (#[trigger] states[i]).dom().len() <= states[at].dom().len()
    &&& forall|i: int|
        at < i < states.len() ==> (#[trigger] states[i]).dom().len() < states[at].dom().len()
}

/// The branch that a scan from the first to the last ledger chooses, taking
/// each ledger that has at least as many accounts as the one chosen so far.
pub open spec fn canonical(states: Seq<Balances>) -> int
    decreases states.len(),
{
    if states.len() <= 1 {
        0
    } else {
        let chosen = canonical(states.drop_last());
        if states.last().dom().len() >= states[chosen].dom().len() {
            states.len() - 1
        } else {
            chosen
        }
    }
}

/// The tip index that inserting the entries in order gives: of two entries
/// for one tip, the later stands.
pub open spec fn tips_of(entries: Seq<(Seq<char>, nat)>) -> Map<Seq<char>, nat>
    decreases entries.len(),
{
    if entries.len() == 0 {
        Map::empty()
    } else {
        tips_of(entries.drop_last()).insert(entries.last().0, entries.last().1)
    }
}

/// Whether the entry names a branch that ends in the block of its name.
pub open spec fn entry_valid(chains: Seq<Seq<BlockView>>, entry: (Seq<char>, nat)) -> bool {
    &&& entry.1 < chains.len()
    &&& chains[entry.1 as int].len() > 0
    &&& chains[entry.1 as int].last().block_id == entry.0
}

/// Whether every chain has a block and is linked from block to block, and
/// every entry is valid.
pub open spec fn well_shaped(chains: Seq<Seq<BlockView>>, entries: Seq<(Seq<char>, nat)>) -> bool {
    &&& forall|i: int|
        0 <= i < chains.len() ==> (#[trigger] chains[i]).len() > 0 && linked(chains[i])
    &&& forall|j: int| 0 <= j < entries.len() ==> entry_valid(chains, #[trigger] entries[j])
}

/// The registry that stored chains and tip entries stand for: each chain
/// with the ledger that replaying it from its first block gives.
pub open spec fn restored(chains: Seq<Seq<BlockView>>, entries: Seq<(Seq<char>, nat)>) -> Registry {
    Registry { chains, states: snapshots_of(chains), tips: tips_of(entries) }
}

/// The set of candidate branches, the ledger of each, and the branch that
/// each tip belongs to.
pub struct Registry {
    /// The branches, in the order in which they were created.
    pub chains: Seq<Seq<BlockView>>,
    /// The ledger of each branch.
    pub states: Seq<Balances>,
    /// The branch that a block extends when it names this tip as its parent.
    pub tips: Map<Seq<char>, nat>,
}

impl Registry {
    /// The registry before any block.
    pub open spec fn empty() -> Registry {
        Registry { chains: Seq::empty(), states: Seq::empty(), tips: Map::empty() }
    }

    /// Whether the branch at `i` has a block, is linked from block to block,
    /// and carries the ledger that replaying it from its first block gives.
    pub open spec fn branch_valid(self, i: int) -> bool {
        &&& self.chains[i].len() > 0
        &&& linked(self.chains[i])
        &&& replayable(self.chains[i])
        &&& self.states[i] == snapshot_of(self.chains[i])
    }

    /// Whether the tip `id` names a branch that ends in the block `id`.
    pub open spec fn tip_valid(self, id: Seq<char>) -> bool {
        &&& self.tips[id] < self.chains.len()
        &&& self.chains[self.tips[id] as int].last().block_id == id
    }

    /// Whether every branch and every tip is valid.
    pub open spec fn valid(self) -> bool {
        &&& self.states.len() == self.chains.len()
        &&& forall|i: int| 0 <= i < self.chains.len() ==> #[trigger] self.branch_valid(i)
        &&& forall|id: Seq<char>| self.tips.contains_key(id) ==> #[trigger] self.tip_valid(id)
    }

    /// The registry with a new branch that holds `block` alone.
    pub open spec fn start(self, block: BlockView) -> Registry {
        Registry {
            chains: self.chains.push(seq![block]),
            states: self.states.push(replay(Map::empty(), block.transactions)),
            tips: self.tips.insert(block.block_id, self.chains.len()),
        }
    }

    /// The registry with `block` appended to the branch at `at`, whose tip
    /// was `parent`: the transactions of the block are applied to the ledger
    /// that the branch had.
    pub open spec fn extend(self, at: int, block: BlockView, parent: Seq<char>) -> Registry {
        Registry {
            chains: self.chains.update(at, self.chains[at].push(block)),
            states: self.states.update(at, replay(self.states[at], block.transactions)),
            tips: self.tips.remove(parent).insert(block.block_id, at as nat),
        }
    }

    /// The registry with one new branch for each block named `parent` in any
    /// branch, each with the ledger that replaying it from its first block
    /// gives; the last of them becomes the branch of the tip `block`. Where
    /// no block is named `parent`, the registry itself.
    pub open spec fn fork(self, block: BlockView, parent: Seq<char>) -> Registry {
        let added = forks(self.chains, block, parent, self.chains.len() as int);
        if added.len() == 0 {
            self
        } else {
            Registry {
                chains: self.chains + added,
                states: self.states + snapshots_of(added),
                tips: self.tips.insert(
                    block.block_id,
                    (self.chains.len() + added.len() - 1) as nat,
                ),
            }
        }
    }

    /// The registry after `block`: a block without a parent starts a branch;
    /// one whose parent is a tip extends the branch of that tip; any other
    /// forks off every block that carries the name of its parent, and is
    /// dropped where there is none.
    pub open spec fn ingest(self, block: BlockView) -> Registry {
        match block.parent_id {
            None => self.start(block),
            Some(parent) => if self.tips.contains_key(parent) {
                self.extend(self.tips[parent] as int, block, parent)
            } else {
                self.fork(block, parent)
            },
        }
    }

    /// Whether every branch of the registry after `block` can be replayed
    /// with all balances within a `u64`.
    pub open spec fn accepts(self, block: BlockView) -> bool {
        forall|i: int|
            0 <= i < self.ingest(block).chains.len() ==> replayable(
                #[trigger] self.ingest(block).chains[i],
            )
    }

    /// What ingesting `block` reports: success where the block is accepted,
    /// an overflow where it is not.
    pub open spec fn outcome(self, block: BlockView) -> Result<(), ServiceError> {
        if self.accepts(block) {
            Ok(())
        } else {
            Err(ServiceError::BalanceOverflow)
        }
    }

    /// What ingesting `block` leaves: the registry after the block where it
    /// is accepted, the registry as it was where it is not.
    pub open spec fn after(self, block: BlockView) -> Registry {
        if self.accepts(block) {
            self.ingest(block)
        } else {
            self
        }
    }

    /// The balance of `account` on the canonical branch: zero while there is
    /// no branch, and zero where the canonical branch lacks the account.
    pub open spec fn balance(self, account: Seq<char>) -> Result<u64, ServiceError> {
        if self.states.len() == 0 {
            Ok(0)
        } else {
            let state = self.states[canonical(self.states)];
            if state.contains_key(account) {
                Ok(state[account] as u64)
            } else {
                Ok(0)
            }
        }
    }
}

/// The forks found among fewer blocks come first among the forks found among
/// more.
pub proof fn lemma_forks_within_grow(
    chain: Seq<BlockView>,
    block: BlockView,
    parent: Seq<char>,
    fewer: int,
    more: int,
)
    requires
        0 <= fewer <= more,
    ensures
        forks_within(chain, block, parent, fewer).len() <= forks_within(
            chain,
            block,
            parent,
            more,
        ).len(),
        forall|k: int|
            0 <= k < forks_within(chain, block, parent, fewer).len() ==> forks_within(
                chain,
                block,
                parent,
                fewer,
            )[k] == #[trigger] forks_within(chain, block, parent, more)[k],
    decreases more,
{
    if fewer < more {
        lemma_forks_within_grow(chain, block, parent, fewer, more - 1);
    }
}

/// The forks found in fewer chains come first among the forks found in more.
pub proof fn lemma_forks_grow(
    chains: Seq<Seq<BlockView>>,
    block: BlockView,
    parent: Seq<char>,
    fewer: int,
    more: int,
)
    requires
        0 <= fewer <= more,
    ensures
        forks(chains, block, parent, fewer).len() <= forks(chains, block, parent, more).len(),
        forall|k: int|
            0 <= k < forks(chains, block, parent, fewer).len() ==> forks(
                chains,
                block,
                parent,
                fewer,
            )[k] == #[trigger] forks(chains, block, parent, more)[k],
    decreases more,
{
    if fewer < more {
        lemma_forks_grow(chains, block, parent, fewer, more - 1);
    }
}

/// A block named `parent` at position `cut - 1` of the chain at `c` gives a
/// fork, and it stands after the forks that come from earlier chains and
/// from earlier blocks of the same chain.
pub proof fn lemma_fork_found(
    chains: Seq<Seq<BlockView>>,
    block: BlockView,
    parent: Seq<char>,
    c: int,
    cut: int,
)
    requires
        0 <= c < chains.len(),
        0 < cut <= chains[c].len(),
        chains[c][cut - 1].block_id == parent,
    ensures
        ({
            let at = (forks(chains, block, parent, c).len() + forks_within(
                chains[c],
                block,
                parent,
                cut - 1,
            ).len()) as int;
            let all = forks(chains, block, parent, chains.len() as int);
            at < all.len() && all[at] == chains[c].take(cut).push(block)
        }),
{
    let chain = chains[c];
    let earlier = forks(chains, block, parent, c);
    let before = forks_within(chain, block, parent, cut - 1);
    let upto = forks_within(chain, block, parent, cut);
    let whole = forks_within(chain, block, parent, chain.len() as int);
    let at = (earlier.len() + before.len()) as int;
    assert(upto == before.push(chain.take(cut).push(block)));
    assert(upto[before.len() as int] == chain.take(cut).push(block));
    lemma_forks_within_grow(chain, block, parent, cut, chain.len() as int);
    assert(whole[before.len() as int] == upto[before.len() as int]);
    let next = forks(chains, block, parent, c + 1);
    assert(next == earlier + whole);
    assert(next[at] == whole[before.len() as int]);
    lemma_forks_grow(chains, block, parent, c + 1, chains.len() as int);
    assert(forks(chains, block, parent, chains.len() as int)[at] == next[at]);
}

/// Each fork is a chain cut after one of its blocks, then the new block.
pub proof fn lemma_forks_within_shape(
    chain: Seq<BlockView>,
    block: BlockView,
    parent: Seq<char>,
    upto: int,
    k: int,
)
    requires
        0 <= upto <= chain.len(),
        0 <= k < forks_within(chain, block, parent, upto).len(),
    ensures
        exists|cut: int|
            0 < cut <= upto && chain[cut - 1].block_id == parent && #[trigger] chain.take(
                cut,
            ).push(block) == forks_within(chain, block, parent, upto)[k],
    decreases upto,
{
    let earlier = forks_within(chain, block, parent, upto - 1);
    if k < earlier.len() {
        lemma_forks_within_shape(chain, block, parent, upto - 1, k);
        let cut = choose|cut: int|
            0 < cut <= upto - 1 && chain[cut - 1].block_id == parent && #[trigger] chain.take(
                cut,
            ).push(block) == earlier[k];
        assert(chain.take(cut).push(block) == forks_within(chain, block, parent, upto)[k]);
    } else {
        assert(chain.take(upto).push(block) == forks_within(chain, block, parent, upto)[k]);
    }
}

/// Each fork is one of the chains cut after one of its blocks, then the new
/// block.
pub proof fn lemma_forks_shape(
    chains: Seq<Seq<BlockView>>,
    block: BlockView,
    parent: Seq<char>,
    upto: int,
    k: int,
)
    requires
        0 <= upto <= chains.len(),
        0 <= k < forks(chains, block, parent, upto).len(),
    ensures
        exists|c: int, cut: int|
            0 <= c < upto && 0 < cut <= chains[c].len() && chains[c][cut - 1].block_id == parent
                && #[trigger] chains[c].take(cut).push(block) == forks(
                chains,
                block,
                parent,
                upto,
            )[k],
    decreases upto,
{
    let earlier = forks(chains, block, parent, upto - 1);
    if k < earlier.len() {
        lemma_forks_shape(chains, block, parent, upto - 1, k);
        let (c, cut) = choose|c: int, cut: int|
            0 <= c < upto - 1 && 0 < cut <= chains[c].len() && chains[c][cut - 1].block_id
                == parent && #[trigger] chains[c].take(cut).push(block) == earlier[k];
        assert(chains[c].take(cut).push(block) == forks(chains, block, parent, upto)[k]);
    } else {
        let chain = chains[upto - 1];
        lemma_forks_within_shape(chain, block, parent, chain.len() as int, k - earlier.len());
        let cut = choose|cut: int|
            0 < cut <= chain.len() && chain[cut - 1].block_id == parent && #[trigger] chain.take(
                cut,
            ).push(block) == forks_within(chain, block, parent, chain.len() as int)[k
                - earlier.len()];
        assert(chains[upto - 1].take(cut).push(block) == forks(chains, block, parent, upto)[k]);
    }
}

/// The scan chooses the branch with the greatest number of accounts, and
/// among several such the last.
pub proof fn lemma_canonical(states: Seq<Balances>)
    requires
        states.len() > 0,
    ensures
        is_canonical(states, canonical(states)),
    decreases states.len(),
{
    if states.len() > 1 {
        let front = states.drop_last();
        lemma_canonical(front);
        let chosen = canonical(front);
        assert(front[chosen] == states[chosen]);
        assert forall|i: int| 0 <= i < states.len() implies (#[trigger] states[i]).dom().len()
            <= states[canonical(states)].dom().len() by {
            if i < front.len() {
                assert(front[i] == states[i]);
            }
        }
        assert forall|i: int| canonical(states) < i < states.len() implies (
        #[trigger] states[i]).dom().len() < states[canonical(states)].dom().len() by {
            if i < front.len() {
                assert(front[i] == states[i]);
            }
        }
    }
}

/// No two branches are canonical.
pub proof fn lemma_canonical_unique(states: Seq<Balances>, a: int, b: int)
    requires
        is_canonical(states, a),
        is_canonical(states, b),
    ensures
        a == b,
{
    if a < b {
        assert(states[b].dom().len() < states[a].dom().len());
        assert(states[a].dom().len() <= states[b].dom().len());
    } else if b < a {
        assert(states[a].dom().len() < states[b].dom().len());
        assert(states[b].dom().len() <= states[a].dom().len());
    }
}

/// A block that is accepted leaves a valid registry valid: every branch is
/// still linked, and still carries the ledger that replaying it from its
/// first block gives, whether that ledger was rebuilt or brought forward
/// from the ledger the branch had.
pub proof fn lemma_ingest_valid(registry: Registry, block: BlockView)
    requires
        registry.valid(),
        registry.accepts(block),
    ensures
        registry.ingest(block).valid(),
{
    let after = registry.ingest(block);
    let n = registry.chains.len() as int;
    match block.parent_id {
        None => {
            let chain = seq![block];
            assert(after.chains[n] == chain);
            assert(replayable(after.chains[n]));
            assert(chain =~= Seq::<BlockView>::empty().push(block));
            lemma_replay_extension(Seq::empty(), block);
            assert forall|i: int| 0 <= i < after.chains.len() implies #[trigger] after.branch_valid(
                i,
            ) by {
                if i < n {
                    assert(registry.branch_valid(i));
                }
            }
            assert forall|id: Seq<char>| after.tips.contains_key(id) implies #[trigger] after.tip_valid(
                id,
            ) by {
                if id != block.block_id {
                    assert(registry.tip_valid(id));
                }
            }
        },
        Some(parent) => {
            if registry.tips.contains_key(parent) {
                let at = registry.tips[parent] as int;
                assert(registry.tip_valid(parent));
                assert(registry.branch_valid(at));
                let chain = registry.chains[at].push(block);
                assert(after.chains[at] == chain);
                assert(replayable(after.chains[at]));
                lemma_replay_extension(registry.chains[at], block);
                assert(linked(chain)) by {
                    assert forall|i: int| 0 < i < chain.len() implies (#[trigger] chain[i]).parent_id
                        == Some(chain[i - 1].block_id) by {
                        if i < chain.len() - 1 {
                            assert(chain[i] == registry.chains[at][i]);
                        }
                    }
                }
                assert forall|i: int| 0 <= i < after.chains.len() implies #[trigger] after.branch_valid(
                    i,
                ) by {
                    if i != at {
                        assert(registry.branch_valid(i));
                    }
                }
                assert forall|id: Seq<char>| after.tips.contains_key(id) implies #[trigger] after.tip_valid(
                    id,
                ) by {
                    if id != block.block_id {
                        assert(registry.tip_valid(id));
                    }
                }
            } else {
                let added = forks(registry.chains, block, parent, n);
                if added.len() > 0 {
                    assert forall|i: int| 0 <= i < after.chains.len() implies #[trigger] after.branch_valid(
                        i,
                    ) by {
                        if i < n {
                            assert(registry.branch_valid(i));
                            assert(after.chains[i] == registry.chains[i]);
                            assert(after.states[i] == registry.states[i]);
                        } else {
                            let k = i - n;
                            assert(after.chains[i] == added[k]);
                            assert(after.states[i] == snapshot_of(added[k]));
                            assert(replayable(after.chains[i]));
                            lemma_forks_shape(registry.chains, block, parent, n, k);
                            let (c, cut) = choose|c: int, cut: int|
                                0 <= c < n && 0 < cut <= registry.chains[c].len()
                                    && registry.chains[c][cut - 1].block_id == parent
                                    && #[trigger] registry.chains[c].take(cut).push(block)
                                    == added[k];
                            assert(registry.branch_valid(c));
                            let source = registry.chains[c];
                            let chain = source.take(cut).push(block);
                            assert forall|j: int| 0 < j < chain.len() implies (
                            #[trigger] chain[j]).parent_id == Some(chain[j - 1].block_id) by {
                                if j < chain.len() - 1 {
                                    assert(chain[j] == source[j]);
                                    assert(chain[j - 1] == source[j - 1]);
                                }
                            }
                        }
                    }
                    assert forall|id: Seq<char>| after.tips.contains_key(id) implies #[trigger] after.tip_valid(
                        id,
                    ) by {
                        if id != block.block_id {
                            assert(registry.tip_valid(id));
                        } else {
                            lemma_forks_shape(registry.chains, block, parent, n, added.len() - 1);
                        }
                    }
                }
            }
        },
    }
}

/// A block without a parent is accepted exactly when its own transactions
/// can be replayed on a ledger without accounts.
pub proof fn lemma_accepts_root(registry: Registry, block: BlockView)
    requires
        registry.valid(),
        block.parent_id is None,
    ensures
        registry.accepts(block) <==> replay_within_limits(Map::empty(), block.transactions),
{
    let after = registry.ingest(block);
    let n = registry.chains.len() as int;
    assert(seq![block] =~= Seq::<BlockView>::empty().push(block));
    lemma_replay_extension(Seq::empty(), block);
    assert(after.chains[n] == seq![block]);
    if replay_within_limits(Map::empty(), block.transactions) {
        assert forall|i: int| 0 <= i < after.chains.len() implies replayable(
            #[trigger] after.chains[i],
        ) by {
            if i < n {
                assert(registry.branch_valid(i));
            }
        }
    }
}

/// A block that names a tip is accepted exactly when its transactions can be
/// applied to the ledger of the branch of that tip.
pub proof fn lemma_accepts_extension(registry: Registry, block: BlockView, parent: Seq<char>)
    requires
        registry.valid(),
        block.parent_id == Some(parent),
        registry.tips.contains_key(parent),
    ensures
        registry.accepts(block) <==> replay_within_limits(
            registry.states[registry.tips[parent] as int],
            block.transactions,
        ),
{
    let after = registry.ingest(block);
    let at = registry.tips[parent] as int;
    assert(registry.tip_valid(parent));
    assert(registry.branch_valid(at));
    lemma_replay_extension(registry.chains[at], block);
    assert(after.chains[at] == registry.chains[at].push(block));
    if replay_within_limits(registry.states[at], block.transactions) {
        assert forall|i: int| 0 <= i < after.chains.len() implies replayable(
            #[trigger] after.chains[i],
        ) by {
            if i != at {
                assert(registry.branch_valid(i));
            }
        }
    }
}

/// A block that names no tip is accepted exactly when each of the branches
/// it forks can be replayed from its first block.
pub proof fn lemma_accepts_fork(registry: Registry, block: BlockView, parent: Seq<char>)
    requires
        registry.valid(),
        block.parent_id == Some(parent),
        !registry.tips.contains_key(parent),
    ensures
        registry.accepts(block) <==> forall|k: int|
            0 <= k < forks(registry.chains, block, parent, registry.chains.len() as int).len()
                ==> replayable(
                #[trigger] forks(registry.chains, block, parent, registry.chains.len() as int)[k],
            ),
{
    let after = registry.ingest(block);
    let n = registry.chains.len() as int;
    let added = forks(registry.chains, block, parent, n);
    if registry.accepts(block) {
        assert forall|k: int| 0 <= k < added.len() implies replayable(#[trigger] added[k]) by {
            assert(after.chains[n + k] == added[k]);
        }
    }
    if forall|k: int| 0 <= k < added.len() ==> replayable(#[trigger] added[k]) {
        assert forall|i: int| 0 <= i < after.chains.len() implies replayable(
            #[trigger] after.chains[i],
        ) by {
            if i < n {
                assert(registry.branch_valid(i));
                assert(after.chains[i] == registry.chains[i]);
            } else {
                assert(after.chains[i] == added[i - n]);
            }
        }
    }
}

/// The ledger of every branch of a valid registry fits in `u64` balances.
pub proof fn lemma_valid_within_limits(registry: Registry, i: int)
    requires
        registry.valid(),
        0 <= i < registry.chains.len(),
    ensures
        within_limits(registry.states[i]),
{
    assert(registry.branch_valid(i));
}

/// The tips that belong to the branches before `bound`.
pub open spec fn tips_below(tips: Map<Seq<char>, nat>, bound: int) -> Map<Seq<char>, nat> {
    Map::new(|id: Seq<char>| tips.contains_key(id) && tips[id] < bound, |id: Seq<char>| tips[id])
}

/// The tips of the branches up to and including the branch at `at` are
/// those of the branches before it, and the name of its last block where
/// that is a tip of this branch.
pub proof fn lemma_tips_below_step(registry: Registry, at: int)
    requires
        registry.valid(),
        0 <= at < registry.chains.len(),
    ensures
        ({
            let name = registry.chains[at].last().block_id;
            tips_below(registry.tips, at + 1) == if registry.tips.contains_key(name)
                && registry.tips[name] == at {
                tips_below(registry.tips, at).insert(name, at as nat)
            } else {
                tips_below(registry.tips, at)
            }
        }),
{
    let name = registry.chains[at].last().block_id;
    let next = tips_below(registry.tips, at + 1);
    let expected = if registry.tips.contains_key(name) && registry.tips[name] == at {
        tips_below(registry.tips, at).insert(name, at as nat)
    } else {
        tips_below(registry.tips, at)
    };
    assert forall|id: Seq<char>| next.contains_key(id) <==> expected.contains_key(id) by {
        if registry.tips.contains_key(id) {
            assert(registry.tip_valid(id));
        }
    }
    assert(next =~= expected);
}

/// Every tip of a valid registry belongs to one of its branches.
pub proof fn lemma_tips_below_all(registry: Registry)
    requires
        registry.valid(),
    ensures
        tips_below(registry.tips, registry.chains.len() as int) == registry.tips,
{
    assert forall|id: Seq<char>| registry.tips.contains_key(id) implies tips_below(
        registry.tips,
        registry.chains.len() as int,
    ).contains_key(id) by {
        assert(registry.tip_valid(id));
    }
    assert(tips_below(registry.tips, registry.chains.len() as int) =~= registry.tips);
}

/// Every tip of an index built from valid entries is one of the entries.
pub proof fn lemma_tips_of_valid(chains: Seq<Seq<BlockView>>, entries: Seq<(Seq<char>, nat)>)
    requires
        forall|j: int| 0 <= j < entries.len() ==> entry_valid(chains, #[trigger] entries[j]),
    ensures
        forall|id: Seq<char>| #[trigger]
            tips_of(entries).contains_key(id) ==> entry_valid(chains, (id, tips_of(entries)[id])),
    decreases entries.len(),
{
    if entries.len() > 0 {
        let front = entries.drop_last();
        assert forall|j: int| 0 <= j < front.len() implies entry_valid(
            chains,
            #[trigger] front[j],
        ) by {
            assert(front[j] == entries[j]);
        }
        lemma_tips_of_valid(chains, front);
        let last = entries.last();
        assert(entry_valid(chains, entries[entries.len() - 1]));
        assert forall|id: Seq<char>| #[trigger]
            tips_of(entries).contains_key(id) implies entry_valid(
            chains,
            (id, tips_of(entries)[id]),
        ) by {
            if id == last.0 {
                assert((id, tips_of(entries)[id]) == last);
            } else {
                assert(tips_of(front).contains_key(id));
                assert(tips_of(entries)[id] == tips_of(front)[id]);
            }
        }
    }
}

/// Stored chains and entries that are well shaped, with every chain
/// replayable, stand for a valid registry.
pub proof fn lemma_restored_valid(chains: Seq<Seq<BlockView>>, entries: Seq<(Seq<char>, nat)>)
    requires
        well_shaped(chains, entries),
        forall|i: int| 0 <= i < chains.len() ==> replayable(#[trigger] chains[i]),
    ensures
        restored(chains, entries).valid(),
{
    let registry = restored(chains, entries);
    lemma_tips_of_valid(chains, entries);
    assert forall|i: int| 0 <= i < registry.chains.len() implies #[trigger] registry.branch_valid(
        i,
    ) by {
        assert(chains[i].len() > 0 && linked(chains[i]));
        assert(replayable(chains[i]));
    }
    assert forall|id: Seq<char>| registry.tips.contains_key(id) implies #[trigger] registry.tip_valid(
        id,
    ) by {
        assert(entry_valid(chains, (id, tips_of(entries)[id])));
    }
}

/// Storing and restoring: the chains of a valid registry, with entries that
/// list its tips, stand for that registry.
pub proof fn lemma_restored_same(registry: Registry, entries: Seq<(Seq<char>, nat)>)
    requires
        registry.valid(),
        tips_of(entries) == registry.tips,
    ensures
        restored(registry.chains, entries) == registry,
        forall|i: int| 0 <= i < registry.chains.len() ==> replayable(#[trigger] registry.chains[i]),
{
    assert forall|i: int| 0 <= i < registry.chains.len() implies replayable(
        #[trigger] registry.chains[i],
    ) && snapshots_of(registry.chains)[i] == registry.states[i] by {
        assert(registry.branch_valid(i));
    }
    assert(snapshots_of(registry.chains) =~= registry.states);
}

} // verus!