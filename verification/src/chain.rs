//! Blocks, branches, and the ledger that replaying a branch yields.

use vstd::prelude::*;
use vstd::string::*;
use crate::error::ServiceError;
use crate::ledger::{
    replay, replay_within_limits, transaction_views, Balances, Ledger, Transaction,
    TransactionView,
};

verus! {

/// A block as contracts see it.
pub struct BlockView {
    pub block_id: Seq<char>,
    pub parent_id: Option<Seq<char>>,
    pub transactions: Seq<TransactionView>,
}

/// An ordered batch of transactions that names the block it follows.
///
/// A block without a parent is the root of a branch of its own.
#[derive(Debug, PartialEq, Eq)]
pub struct Block {
    pub block_id: String,
    pub parent_id: Option<String>,
    pub transactions: Vec<Transaction>,
}

impl View for Block {
    type V = BlockView;

    open spec fn view(&self) -> BlockView {
        BlockView {
            block_id: self.block_id@,
            parent_id: match self.parent_id {
                Some(parent) => Some(parent@),
                None => None,
            },
            transactions: transaction_views(self.transactions@),
        }
    }
}

impl Clone for Block {
    fn clone(&self) -> (copy: Self)
        ensures
            copy@ == self@,
    {
        let mut transactions: Vec<Transaction> = Vec::new();
        let mut i: usize = 0;
        while i < self.transactions.len()
            invariant
                i <= self.transactions.len(),
                transactions.len() == i,
                forall|k: int| 0 <= k < i ==> (#[trigger] transactions[k])@ == self.transactions[k]@,
            decreases self.transactions.len() - i,
        {
            transactions.push(self.transactions[i].clone());
            i += 1;
        }
        let parent_id = match &self.parent_id {
            Some(parent) => Some(parent.clone()),
            None => None,
        };
        assert(transaction_views(transactions@) =~= transaction_views(self.transactions@));
        Block { block_id: self.block_id.clone(), parent_id, transactions }
    }
}

/// The views of a sequence of blocks, in order.
pub open spec fn block_views(blocks: Seq<Block>) -> Seq<BlockView> {
    blocks.map_values(|block: Block| block@)
}

/// Whether each block but the first names the block before it as its parent.
pub open spec fn linked(chain: Seq<BlockView>) -> bool {
    forall|i: int|
        0 < i < chain.len() ==> (#[trigger] chain[i]).parent_id == Some(chain[i - 1].block_id)
}

/// The transactions of all blocks of a branch, in order.
pub open spec fn transactions_of(chain: Seq<BlockView>) -> Seq<TransactionView>
    decreases chain.len(),
{
    if chain.len() == 0 {
        Seq::empty()
    } else {
        transactions_of(chain.drop_last()) + chain.last().transactions
    }
}

/// The ledger of a branch: every transaction of its blocks, replayed in
/// order on a ledger without accounts.
pub open spec fn snapshot_of(chain: Seq<BlockView>) -> Balances {
    replay(Map::empty(), transactions_of(chain))
}

/// Whether replaying the branch from its first block keeps every balance
/// within a `u64` after each transaction.
pub open spec fn replayable(chain: Seq<BlockView>) -> bool {
    replay_within_limits(Map::empty(), transactions_of(chain))
}

/// Replaying two batches one after the other is replaying them as one.
pub proof fn lemma_replay_concat(
    ledger: Balances,
    first: Seq<TransactionView>,
    second: Seq<TransactionView>,
)
    ensures
        replay(ledger, first + second) == replay(replay(ledger, first), second),
        replay_within_limits(ledger, first + second) <==> replay_within_limits(ledger, first)
            && replay_within_limits(replay(ledger, first), second),
    decreases second.len(),
{
    if second.len() == 0 {
        assert(first + second =~= first);
    } else {
        lemma_replay_concat(ledger, first, second.drop_last());
        assert((first + second).drop_last() =~= first + second.drop_last());
        assert((first + second).last() == second.last());
    }
}

/// Extending a branch by one block and applying that block's transactions to
/// the ledger of the branch gives the ledger that a replay of the extended
/// branch from its first block gives; and the one stays within limits exactly
/// when the other does.
pub proof fn lemma_replay_extension(chain: Seq<BlockView>, block: BlockView)
    ensures
        snapshot_of(chain.push(block)) == replay(snapshot_of(chain), block.transactions),
        replayable(chain.push(block)) <==> replayable(chain) && replay_within_limits(
            snapshot_of(chain),
            block.transactions,
        ),
{
    assert(chain.push(block).drop_last() =~= chain);
    lemma_replay_concat(Map::empty(), transactions_of(chain), block.transactions);
}

/// A branch that can be replayed can be replayed up to each of its blocks.
pub proof fn lemma_replayable_prefix(chain: Seq<BlockView>, n: int)
    requires
        0 <= n <= chain.len(),
        replayable(chain),
    ensures
        replayable(chain.take(n)),
    decreases chain.len(),
{
    if n == chain.len() {
        assert(chain.take(n) =~= chain);
    } else {
        assert(chain.drop_last().push(chain.last()) =~= chain);
        lemma_replay_extension(chain.drop_last(), chain.last());
        lemma_replayable_prefix(chain.drop_last(), n);
        assert(chain.drop_last().take(n) =~= chain.take(n));
    }
}

/// Replays a branch from its first block on a ledger without accounts, or
/// reports the overflow that stops the replay.
pub fn rebuild(blocks: &Vec<Block>) -> (outcome: Result<Ledger, ServiceError>)
    ensures
        outcome is Ok <==> replayable(block_views(blocks@)),
        outcome matches Ok(ledger) ==> ledger@ == snapshot_of(block_views(blocks@)),
        outcome is Err ==> outcome->Err_0 == ServiceError::BalanceOverflow,
{
    let ghost chain = block_views(blocks@);
    let mut ledger = Ledger::new();
    let mut i: usize = 0;
    assert(chain.take(0) =~= Seq::<BlockView>::empty());
    while i < blocks.len()
        invariant
            i <= blocks.len(),
            chain == block_views(blocks@),
            ledger@ == snapshot_of(chain.take(i as int)),
            replayable(chain.take(i as int)),
        decreases blocks.len() - i,
    {
        proof {
            assert(chain.take(i as int).push(chain[i as int]) =~= chain.take(i + 1));
            lemma_replay_extension(chain.take(i as int), chain[i as int]);
        }
        match ledger.replay(&blocks[i].transactions) {
            Ok(next) => {
                ledger = next;
            },
            Err(e) => {
                proof {
                    if replayable(chain) {
                        lemma_replayable_prefix(chain, i + 1);
                    }
                }
                return Err(e);
            },
        }
        i += 1;
    }
    assert(chain.take(i as int) =~= chain);
    Ok(ledger)
}

/// Whether each block but the first names the block before it as its parent.
pub fn is_linked(blocks: &Vec<Block>) -> (answer: bool)
    ensures
        answer == linked(block_views(blocks@)),
{
    let ghost chain = block_views(blocks@);
    let mut i: usize = 1;
    while i < blocks.len()
        invariant
            1 <= i,
            chain == block_views(blocks@),
            forall|k: int|
                0 < k < i && k < chain.len() ==> (#[trigger] chain[k]).parent_id == Some(
                    chain[k - 1].block_id,
                ),
        decreases blocks.len() - i,
    {
        let follows = match &blocks[i].parent_id {
            Some(parent) => *parent == blocks[i - 1].block_id,
            None => false,
        };
        if !follows {
            assert(chain[i as int].parent_id != Some(chain[i - 1].block_id));
            return false;
        }
        i += 1;
    }
    true
}

} // verus!