//! The service interface and the engine behind it: ingestion of blocks into
//! the branch registry, and balance queries against the canonical branch.

use vstd::prelude::*;
use vstd::hash_map::StringHashMap;
use vstd::string::*;
use crate::branches::{
    all_linked, chain_views, collect_forks, entry_views, index_tips, ledger_views,
    lemma_rebuilt_views, rebuild_all, tip_views,
};
use crate::chain::{block_views, replayable, Block, BlockView};
use crate::error::ServiceError;
use crate::ledger::Ledger;
use crate::registry::{
    canonical, entry_valid, lemma_accepts_extension, lemma_accepts_fork, lemma_accepts_root,
    lemma_ingest_valid, lemma_restored_valid, lemma_tips_below_all, lemma_tips_below_step,
    lemma_valid_within_limits, restored, tips_below, tips_of, well_shaped, Registry,
};
use crate::text::{decimal, decimal_string};

verus! {

/// A ledger service: it takes blocks one at a time and answers balance
/// queries.
///
/// What a service does is fixed by its state as contracts see it: the
/// outcome of an ingestion, the state it leaves, and the answer to a query
/// are functions of that state.
pub trait Service: View + Sized {
    /// What a balance query answers with.
    type Balance: PartialEq + Eq + core::fmt::Debug;

    /// The state of a new service.
    spec fn initial() -> Self::V;

    /// What ingesting `block` in `state` reports.
    spec fn outcome_of(state: Self::V, block: BlockView) -> Result<(), ServiceError>;

    /// The state that ingesting `block` in `state` leaves.
    spec fn state_after(state: Self::V, block: BlockView) -> Self::V;

    /// What a query for `account` answers in `state`.
    spec fn balance_of(state: Self::V, account: Seq<char>) -> Result<Self::Balance, ServiceError>;

    /// The text that shows `balance`.
    spec fn balance_text(balance: Self::Balance) -> Seq<char>;

    /// A service that has seen no block.
    fn new() -> (service: Self)
        ensures
            service@ == Self::initial(),
    ;

    /// Takes one block in.
    fn ingest_block(&mut self, block: &Block) -> (outcome: Result<(), ServiceError>)
        ensures
            outcome == Self::outcome_of(old(self)@, block@),
            final(self)@ == Self::state_after(old(self)@, block@),
    ;

    /// Answers with the balance of `account`.
    fn get_balance(&self, account: &str) -> (answer: Result<Self::Balance, ServiceError>)
        ensures
            answer == Self::balance_of(self@, account@),
    ;

    /// Shows a balance as text.
    fn show_balance(balance: &Self::Balance) -> (text: String)
        ensures
            text@ == Self::balance_text(*balance),
    ;
}

/// The engine: every branch seen so far, the ledger of each, and the branch
/// of each tip.
pub struct ServiceImpl {
    states: Vec<Ledger>,
    chains: Vec<Vec<Block>>,
    leaf_blocks: StringHashMap<usize>,
}

/// The registry that stored chains, ledgers and tips stand for.
pub open spec fn registry_of(
    states: Seq<Ledger>,
    chains: Seq<Vec<Block>>,
    tips: Map<Seq<char>, usize>,
) -> Registry {
    Registry { chains: chain_views(chains), states: ledger_views(states), tips: tip_views(tips) }
}

impl View for ServiceImpl {
    type V = Registry;

    closed spec fn view(&self) -> Registry {
        registry_of(self.states@, self.chains@, self.leaf_blocks@)
    }
}

impl ServiceImpl {
    #[verifier::type_invariant]
    spec fn consistent(self) -> bool {
        self@.valid()
    }

    fn empty() -> (service: Self)
        ensures
            service@ == Registry::empty(),
    {
        let states: Vec<Ledger> = Vec::new();
        let chains: Vec<Vec<Block>> = Vec::new();
        let leaf_blocks: StringHashMap<usize> = StringHashMap::new();
        proof {
            let registry = registry_of(states@, chains@, leaf_blocks@);
            assert(registry.chains =~= Registry::empty().chains);
            assert(registry.states =~= Registry::empty().states);
            assert(registry.tips =~= Registry::empty().tips);
        }
        ServiceImpl { states, chains, leaf_blocks }
    }

    /// The branch that answers balance queries: the one whose ledger has
    /// the most accounts, and of several such the newest. None while there
    /// is no branch.
    pub fn canonical_branch(&self) -> (chosen: Option<usize>)
        ensures
            self@.valid(),
            chosen is None <==> self@.states.len() == 0,
            chosen matches Some(at) ==> at < self@.states.len() && at == canonical(self@.states),
    {
        proof {
            use_type_invariant(self);
        }
        if self.states.len() == 0 {
            return None;
        }
        let ghost views = ledger_views(self.states@);
        let mut most: usize = 0;
        let mut chosen: usize = 0;
        let mut i: usize = 0;
        while i < self.states.len()
            invariant
                i <= self.states.len(),
                views == ledger_views(self.states@),
                i == 0 ==> most == 0 && chosen == 0,
                i > 0 ==> chosen == canonical(views.take(i as int)) && chosen < i && most
                    == views[chosen as int].dom().len(),
            decreases self.states.len() - i,
        {
            let count = self.states[i].len();
            proof {
                assert(views.take(i + 1).drop_last() =~= views.take(i as int));
                assert(views.take(i + 1).last() == views[i as int]);
                if i > 0 {
                    assert(views.take(i + 1)[chosen as int] == views[chosen as int]);
                }
            }
            if count >= most {
                most = count;
                chosen = i;
            }
            i += 1;
        }
        proof {
            assert(views.take(i as int) =~= views);
        }
        Some(chosen)
    }

    /// The branches, in the order in which they were created.
    pub fn chains(&self) -> (chains: &Vec<Vec<Block>>)
        ensures
            self@.valid(),
            chain_views(chains@) == self@.chains,
    {
        proof {
            use_type_invariant(self);
        }
        &self.chains
    }

    /// The ledger of each branch.
    pub fn states(&self) -> (states: &Vec<Ledger>)
        ensures
            self@.valid(),
            ledger_views(states@) == self@.states,
    {
        proof {
            use_type_invariant(self);
        }
        &self.states
    }

    /// The branch that a block extends when it names `block_id` as its
    /// parent, if `block_id` is a tip.
    pub fn tip(&self, block_id: &str) -> (at: Option<usize>)
        ensures
            at is Some <==> self@.tips.contains_key(block_id@),
            at matches Some(i) ==> i == self@.tips[block_id@],
    {
        match self.leaf_blocks.get(block_id) {
            Some(at) => Some(*at),
            None => None,
        }
    }

    /// The tips with the branch of each, in the order of the branches.
    pub fn tips(&self) -> (entries: Vec<(String, usize)>)
        ensures
            tips_of(entry_views(entries@)) == self@.tips,
            forall|a: int, b: int|
                0 <= a < b < entries.len() ==> (#[trigger] entries[a]).1 < (#[trigger] entries[b]).1,
            forall|j: int|
                0 <= j < entries.len() ==> entry_valid(
                    self@.chains,
                    #[trigger] entry_views(entries@)[j],
                ),
            forall|j: int|
                0 <= j < entries.len() ==> self@.tips.contains_key(
                    (#[trigger] entry_views(entries@)[j]).0,
                ) && self@.tips[entry_views(entries@)[j].0] == entry_views(entries@)[j].1,
    {
        proof {
            use_type_invariant(self);
        }
        let ghost registry = self@;
        let mut entries: Vec<(String, usize)> = Vec::new();
        let mut i: usize = 0;
        assert(tips_of(entry_views(entries@)) =~= tips_below(registry.tips, 0));
        while i < self.chains.len()
            invariant
                i <= self.chains.len(),
                registry == self@,
                registry.valid(),
                tips_of(entry_views(entries@)) == tips_below(registry.tips, i as int),
                forall|j: int| 0 <= j < entries.len() ==> (#[trigger] entries[j]).1 < i,
                forall|a: int, b: int|
                    0 <= a < b < entries.len() ==> (#[trigger] entries[a]).1 < (
                    #[trigger] entries[b]).1,
                forall|j: int|
                    0 <= j < entries.len() ==> entry_valid(
                        registry.chains,
                        #[trigger] entry_views(entries@)[j],
                    ),
                forall|j: int|
                    0 <= j < entries.len() ==> registry.tips.contains_key(
                        (#[trigger] entry_views(entries@)[j]).0,
                    ) && registry.tips[entry_views(entries@)[j].0] == entry_views(entries@)[j].1,
            decreases self.chains.len() - i,
        {
            let chain = &self.chains[i];
            proof {
                assert(registry.branch_valid(i as int));
                assert(registry.chains[i as int] == block_views(chain@));
                lemma_tips_below_step(registry, i as int);
            }
            let last = &chain[chain.len() - 1];
            let ghost name = last.block_id@;
            assert(name == registry.chains[i as int].last().block_id);
            let ghost listed = entry_views(entries@);
            let found = match self.tip(last.block_id.as_str()) {
                Some(at) => at == i,
                None => false,
            };
            if found {
                entries.push((last.block_id.clone(), i));
                proof {
                    let grown = entry_views(entries@);
                    assert(grown.drop_last() =~= listed);
                    assert(grown.last() == (name, i as nat));
                    assert forall|j: int| 0 <= j < entries.len() implies entry_valid(
                        registry.chains,
                        #[trigger] grown[j],
                    ) by {
                        if j < listed.len() {
                            assert(grown[j] == listed[j]);
                        }
                    }
                    assert forall|j: int| 0 <= j < entries.len() implies registry.tips.contains_key(
                        (#[trigger] grown[j]).0,
                    ) && registry.tips[grown[j].0] == grown[j].1 by {
                        if j < listed.len() {
                            assert(grown[j] == listed[j]);
                        }
                    }
                }
            }
            i += 1;
        }
        proof {
            lemma_tips_below_all(registry);
        }
        entries
    }

    /// The engine that stored chains and tip entries stand for, with the
    /// ledger of each chain rebuilt from its first block. Chains and entries
    /// that are not well shaped are refused as invalid; a chain whose replay
    /// would carry a balance past `u64::MAX`, as an overflow.
    pub fn restore(chains: Vec<Vec<Block>>, tips: Vec<(String, usize)>) -> (outcome: Result<
        ServiceImpl,
        ServiceError,
    >)
        ensures
            outcome is Ok <==> well_shaped(chain_views(chains@), entry_views(tips@)) && forall|
                i: int,
            |
                0 <= i < chains.len() ==> replayable(#[trigger] chain_views(chains@)[i]),
            outcome matches Ok(service) ==> service@.valid() && service@ == restored(
                chain_views(chains@),
                entry_views(tips@),
            ),
            outcome matches Err(error) ==> error == (if well_shaped(
                chain_views(chains@),
                entry_views(tips@),
            ) {
                ServiceError::BalanceOverflow
            } else {
                ServiceError::InvalidRegistry
            }),
    {
        if !all_linked(&chains) {
            return Err(ServiceError::InvalidRegistry);
        }
        let leaf_blocks = match index_tips(&chains, &tips) {
            Some(index) => index,
            None => {
                return Err(ServiceError::InvalidRegistry);
            },
        };
        let states = match rebuild_all(&chains) {
            Ok(states) => states,
            Err(error) => {
                return Err(error);
            },
        };
        proof {
            lemma_rebuilt_views(chains@, states@);
            lemma_restored_valid(chain_views(chains@), entry_views(tips@));
        }
        Ok(ServiceImpl { states, chains, leaf_blocks })
    }

    fn start_branch(&mut self, block: &Block) -> (outcome: Result<(), ServiceError>)
        requires
            block.parent_id is None,
        ensures
            outcome == old(self)@.outcome(block@),
            final(self)@ == old(self)@.after(block@),
    {
        let ghost before = self@;
        proof {
            use_type_invariant(&*self);
            lemma_accepts_root(before, block@);
        }
        match Ledger::new().replay(&block.transactions) {
            Err(e) => Err(e),
            Ok(state) => {
                let mut chain: Vec<Block> = Vec::new();
                chain.push(block.clone());
                assert(block_views(chain@) =~= seq![block@]);
                let mut taken = ServiceImpl::empty();
                std::mem::swap(self, &mut taken);
                let ServiceImpl { mut states, mut chains, mut leaf_blocks } = taken;
                chains.push(chain);
                states.push(state);
                let at = chains.len() - 1;
                leaf_blocks.insert(block.block_id.clone(), at);
                proof {
                    let after = before.ingest(block@);
                    let now = registry_of(states@, chains@, leaf_blocks@);
                    assert(now.chains =~= after.chains);
                    assert(now.states =~= after.states);
                    assert(now.tips =~= after.tips);
                    lemma_ingest_valid(before, block@);
                }
                *self = ServiceImpl { states, chains, leaf_blocks };
                Ok(())
            },
        }
    }

    fn extend_branch(&mut self, at: usize, block: &Block, parent: &String) -> (outcome: Result<
        (),
        ServiceError,
    >)
        requires
            block@.parent_id == Some(parent@),
            old(self)@.tips.contains_key(parent@),
            old(self)@.tips[parent@] == at,
        ensures
            outcome == old(self)@.outcome(block@),
            final(self)@ == old(self)@.after(block@),
    {
        let ghost before = self@;
        proof {
            use_type_invariant(&*self);
            lemma_accepts_extension(before, block@, parent@);
            assert(before.tip_valid(parent@));
        }
        match self.states[at].duplicate().replay(&block.transactions) {
            Err(e) => Err(e),
            Ok(state) => {
                let mut taken = ServiceImpl::empty();
                std::mem::swap(self, &mut taken);
                let ServiceImpl { mut states, mut chains, mut leaf_blocks } = taken;
                states.set(at, state);
                chains[at].push(block.clone());
                leaf_blocks.remove(parent.as_str());
                leaf_blocks.insert(block.block_id.clone(), at);
                proof {
                    let after = before.ingest(block@);
                    let now = registry_of(states@, chains@, leaf_blocks@);
                    assert(block_views(chains[at as int]@) =~= before.chains[at as int].push(
                        block@,
                    ));
                    assert(now.chains =~= after.chains);
                    assert(now.states =~= after.states);
                    assert(now.tips =~= after.tips);
                    lemma_ingest_valid(before, block@);
                }
                *self = ServiceImpl { states, chains, leaf_blocks };
                Ok(())
            },
        }
    }

    fn fork_branches(&mut self, block: &Block, parent: &String) -> (outcome: Result<
        (),
        ServiceError,
    >)
        requires
            block@.parent_id == Some(parent@),
            !old(self)@.tips.contains_key(parent@),
        ensures
            outcome == old(self)@.outcome(block@),
            final(self)@ == old(self)@.after(block@),
    {
        let ghost before = self@;
        proof {
            use_type_invariant(&*self);
            lemma_accepts_fork(before, block@, parent@);
        }
        match collect_forks(&self.chains, block, parent) {
            Err(error) => Err(error),
            Ok((mut found, mut ledgers)) => {
                proof {
                    lemma_rebuilt_views(found@, ledgers@);
                    lemma_ingest_valid(before, block@);
                }
                if found.len() > 0 {
                    let mut taken = ServiceImpl::empty();
                    std::mem::swap(self, &mut taken);
                    let ServiceImpl { mut states, mut chains, mut leaf_blocks } = taken;
                    chains.append(&mut found);
                    states.append(&mut ledgers);
                    let at = chains.len() - 1;
                    leaf_blocks.insert(block.block_id.clone(), at);
                    proof {
                        let after = before.ingest(block@);
                        let now = registry_of(states@, chains@, leaf_blocks@);
                        assert(now.chains =~= after.chains);
                        assert(now.states =~= after.states);
                        assert(now.tips =~= after.tips);
                    }
                    *self = ServiceImpl { states, chains, leaf_blocks };
                }
                Ok(())
            },
        }
    }
}

impl Default for ServiceImpl {
    fn default() -> (service: Self)
        ensures
            service@ == Registry::empty(),
    {
        ServiceImpl::empty()
    }
}

impl Service for ServiceImpl {
    type Balance = u64;

    open spec fn initial() -> Registry {
        Registry::empty()
    }

    open spec fn outcome_of(state: Registry, block: BlockView) -> Result<(), ServiceError> {
        state.outcome(block)
    }

    open spec fn state_after(state: Registry, block: BlockView) -> Registry {
        state.after(block)
    }

    open spec fn balance_of(state: Registry, account: Seq<char>) -> Result<u64, ServiceError> {
        state.balance(account)
    }

    open spec fn balance_text(balance: u64) -> Seq<char> {
        decimal(balance as nat)
    }

    fn new() -> (service: Self) {
        ServiceImpl::empty()
    }

    /// A block without a parent starts a branch of its own, also where the
    /// same block was taken in before. A block whose parent is a tip extends
    /// the branch of that tip. Any other block forks off every block that
    /// carries the name of its parent, and is dropped without an error
    /// where there is none. A block that would carry a balance past
    /// `u64::MAX` is refused and leaves the registry as it was.
    fn ingest_block(&mut self, block: &Block) -> (outcome: Result<(), ServiceError>)
        ensures
            old(self)@.valid(),
            final(self)@.valid(),
    {
        proof {
            use_type_invariant(&*self);
        }
        let outcome = match &block.parent_id {
            None => self.start_branch(block),
            Some(parent) => {
                match self.tip(parent.as_str()) {
                    Some(at) => self.extend_branch(at, block, parent),
                    None => self.fork_branches(block, parent),
                }
            },
        };
        proof {
            use_type_invariant(&*self);
        }
        outcome
    }

    /// The balance of `account` on the canonical branch; zero for an account
    /// that the branch lacks, and for every account while there is no
    /// branch.
    fn get_balance(&self, account: &str) -> (answer: Result<u64, ServiceError>)
        ensures
            self@.valid(),
    {
        match self.canonical_branch() {
            None => Ok(0),
            Some(at) => {
                proof {
                    lemma_valid_within_limits(self@, at as int);
                }
                match self.states[at].balance(account) {
                    Some(balance) => Ok(balance),
                    None => Ok(0),
                }
            },
        }
    }

    fn show_balance(balance: &u64) -> (text: String) {
        decimal_string(*balance)
    }
}

} // verus!
