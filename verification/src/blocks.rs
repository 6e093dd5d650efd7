//! Sample blocks: two accounts, two roots, and three blocks that follow the
//! first root.

use vstd::prelude::*;
use vstd::string::*;
use crate::chain::{Block, BlockView};
use crate::ledger::{Transaction, TransactionView};

verus! {

/// A mint as contracts see it.
pub open spec fn mint_view(tx_id: Seq<char>, to: Seq<char>, amount: nat) -> TransactionView {
    TransactionView::Mint { tx_id, to, amount }
}

/// A transfer as contracts see it.
pub open spec fn transfer_view(
    tx_id: Seq<char>,
    from: Seq<char>,
    to: Seq<char>,
    amount: nat,
) -> TransactionView {
    TransactionView::Transfer { tx_id, from, to, amount }
}

/// A root block that mints `minted` to Alice and then moves `moved` from
/// Alice to Bob.
pub open spec fn root_view(block_id: Seq<char>, minted: nat, moved: nat) -> BlockView {
    BlockView {
        block_id,
        parent_id: None,
        transactions: seq![
            mint_view("A1"@, "Alice"@, minted),
            transfer_view("A0"@, "Alice"@, "Bob"@, moved),
        ],
    }
}

/// A block with the single transaction `tx` that follows the block `parent`.
pub open spec fn child_view(block_id: Seq<char>, parent: Seq<char>, tx: TransactionView) -> BlockView {
    BlockView { block_id, parent_id: Some(parent), transactions: seq![tx] }
}

fn mint(tx_id: &str, to: &str, amount: u64) -> (tx: Transaction)
    ensures
        tx@ == mint_view(tx_id@, to@, amount as nat),
{
    Transaction::Mint { tx_id: String::from_str(tx_id), to: String::from_str(to), amount }
}

fn transfer(tx_id: &str, from: &str, to: &str, amount: u64) -> (tx: Transaction)
    ensures
        tx@ == transfer_view(tx_id@, from@, to@, amount as nat),
{
    Transaction::Transfer {
        tx_id: String::from_str(tx_id),
        from: String::from_str(from),
        to: String::from_str(to),
        amount,
    }
}

fn root(block_id: &str, minted: u64, moved: u64) -> (block: Block)
    ensures
        block@ == root_view(block_id@, minted as nat, moved as nat),
{
    let mut transactions: Vec<Transaction> = Vec::new();
    transactions.push(mint("A1", "Alice", minted));
    transactions.push(transfer("A0", "Alice", "Bob", moved));
    let block = Block { block_id: String::from_str(block_id), parent_id: None, transactions };
    assert(block@.transactions =~= root_view(block_id@, minted as nat, moved as nat).transactions);
    block
}

fn child(block_id: &str, parent: &str, tx: Transaction) -> (block: Block)
    ensures
        block@ == child_view(block_id@, parent@, tx@),
{
    let mut transactions: Vec<Transaction> = Vec::new();
    transactions.push(tx);
    let block = Block {
        block_id: String::from_str(block_id),
        parent_id: Some(String::from_str(parent)),
        transactions,
    };
    assert(block@.transactions =~= seq![tx@]);
    block
}

/// The account name `Alice`.
pub fn alice() -> (name: String)
    ensures
        name@ == "Alice"@,
{
    String::from_str("Alice")
}

/// The account name `Bob`.
pub fn bob() -> (name: String)
    ensures
        name@ == "Bob"@,
{
    String::from_str("Bob")
}

/// The root `A`: mints 10 to Alice, then moves 5 from Alice to Bob.
pub fn block_a() -> (block: Block)
    ensures
        block@ == root_view("A"@, 10, 5),
{
    root("A", 10, 5)
}

/// The root `E`: mints 8 to Alice, then moves 7 from Alice to Bob.
pub fn block_e() -> (block: Block)
    ensures
        block@ == root_view("E"@, 8, 7),
{
    root("E", 8, 7)
}

/// The block `B` after `A`: moves 5 from Bob to Alice.
pub fn block_b() -> (block: Block)
    ensures
        block@ == child_view("B"@, "A"@, transfer_view("B0"@, "Bob"@, "Alice"@, 5)),
{
    child("B", "A", transfer("B0", "Bob", "Alice", 5))
}

/// The block `C` after `A`: moves 3 from Bob to Alice.
pub fn block_c() -> (block: Block)
    ensures
        block@ == child_view("C"@, "A"@, transfer_view("C0"@, "Bob"@, "Alice"@, 3)),
{
    child("C", "A", transfer("C0", "Bob", "Alice", 3))
}

/// The block `D` after `C`: moves 2 from Alice to Bob.
pub fn block_d() -> (block: Block)
    ensures
        block@ == child_view("D"@, "C"@, transfer_view("D0"@, "Alice"@, "Bob"@, 2)),
{
    child("D", "C", transfer("D0", "Alice", "Bob", 2))
}

} // verus!
