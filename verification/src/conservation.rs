//! Conservation of value: what the balances of a ledger add up to.

use vstd::prelude::*;
use crate::chain::{snapshot_of, transactions_of, BlockView};
use crate::ledger::{apply, debit, funded, replay, Balances, TransactionView};

verus! {

/// The sum of all balances of a ledger with finitely many accounts.
pub open spec fn total(ledger: Balances) -> nat
    decreases ledger.dom().len(),
    when ledger.dom().finite()
    via total_decreases
{
    if ledger.dom().len() == 0 {
        0
    } else {
        let id = ledger.dom().choose();
        ledger[id] + total(ledger.remove(id))
    }
}

#[via_fn]
proof fn total_decreases(ledger: Balances) {
    if ledger.dom().len() != 0 {
        let id = ledger.dom().choose();
        assert(ledger.dom().contains(id));
        assert(ledger.remove(id).dom() =~= ledger.dom().remove(id));
    }
}

/// The amount that a transaction mints.
pub open spec fn minted_by(tx: TransactionView) -> nat {
    match tx {
        TransactionView::Mint { amount, .. } => amount,
        TransactionView::Transfer { .. } => 0,
    }
}

/// The sum of the amounts that the transactions mint.
pub open spec fn minted(transactions: Seq<TransactionView>) -> nat
    decreases transactions.len(),
{
    if transactions.len() == 0 {
        0
    } else {
        minted(transactions.drop_last()) + minted_by(transactions.last())
    }
}

/// Whether the sender of the transaction, if it has one, holds the amount.
pub open spec fn covered(ledger: Balances, tx: TransactionView) -> bool {
    match tx {
        TransactionView::Mint { .. } => true,
        TransactionView::Transfer { from, amount, .. } => funded(ledger, from, amount),
    }
}

/// Whether each transfer finds its sender funded when its turn comes.
pub open spec fn well_funded(ledger: Balances, transactions: Seq<TransactionView>) -> bool
    decreases transactions.len(),
{
    if transactions.len() == 0 {
        true
    } else {
        &&& well_funded(ledger, transactions.drop_last())
        &&& covered(replay(ledger, transactions.drop_last()), transactions.last())
    }
}

/// The total is the balance of any one account plus the total of the rest.
pub proof fn lemma_total_remove(ledger: Balances, id: Seq<char>)
    requires
        ledger.dom().finite(),
        ledger.contains_key(id),
    ensures
        total(ledger) == ledger[id] + total(ledger.remove(id)),
    decreases ledger.dom().len(),
{
    let chosen = ledger.dom().choose();
    assert(ledger.dom().len() != 0);
    if chosen != id {
        let without_chosen = ledger.remove(chosen);
        let without_id = ledger.remove(id);
        assert(without_chosen.dom() =~= ledger.dom().remove(chosen));
        assert(without_id.dom() =~= ledger.dom().remove(id));
        lemma_total_remove(without_chosen, id);
        lemma_total_remove(without_id, chosen);
        assert(without_chosen.remove(id) =~= without_id.remove(chosen));
    }
}

/// Setting one balance changes the total by the difference.
pub proof fn lemma_total_insert(ledger: Balances, id: Seq<char>, balance: nat)
    requires
        ledger.dom().finite(),
    ensures
        ledger.insert(id, balance).dom().finite(),
        total(ledger.insert(id, balance)) + (if ledger.contains_key(id) {
            ledger[id]
        } else {
            0
        }) == total(ledger) + balance,
{
    let changed = ledger.insert(id, balance);
    assert(changed.dom() =~= ledger.dom().insert(id));
    lemma_total_remove(changed, id);
    assert(changed.remove(id) =~= ledger.remove(id));
    if ledger.contains_key(id) {
        lemma_total_remove(ledger, id);
    } else {
        assert(ledger.remove(id) =~= ledger);
    }
}

/// A transaction whose sender is funded changes the total by what it mints.
pub proof fn lemma_apply_conserves(ledger: Balances, tx: TransactionView)
    requires
        ledger.dom().finite(),
        covered(ledger, tx),
    ensures
        apply(ledger, tx).dom().finite(),
        total(apply(ledger, tx)) == total(ledger) + minted_by(tx),
{
    match tx {
        TransactionView::Mint { to, amount, .. } => {
            let held = if ledger.contains_key(to) {
                ledger[to]
            } else {
                0
            };
            lemma_total_insert(ledger, to, held + amount);
        },
        TransactionView::Transfer { from, to, amount, .. } => {
            let taken = debit(ledger, from, amount);
            lemma_total_insert(ledger, from, (ledger[from] - amount) as nat);
            let held = if taken.contains_key(to) {
                taken[to]
            } else {
                0
            };
            lemma_total_insert(taken, to, held + amount);
        },
    }
}

/// Conservation: where every transfer finds its sender funded, the balances
/// add up to what they added up to before, plus everything minted since.
pub proof fn lemma_replay_conserves(ledger: Balances, transactions: Seq<TransactionView>)
    requires
        ledger.dom().finite(),
        well_funded(ledger, transactions),
    ensures
        replay(ledger, transactions).dom().finite(),
        total(replay(ledger, transactions)) == total(ledger) + minted(transactions),
    decreases transactions.len(),
{
    if transactions.len() > 0 {
        lemma_replay_conserves(ledger, transactions.drop_last());
        lemma_apply_conserves(replay(ledger, transactions.drop_last()), transactions.last());
    }
}

/// Conservation on a branch: where every transfer of the branch finds its
/// sender funded, the balances of its ledger add up to everything that the
/// branch minted.
pub proof fn lemma_snapshot_conserves(chain: Seq<BlockView>)
    requires
        well_funded(Map::empty(), transactions_of(chain)),
    ensures
        snapshot_of(chain).dom().finite(),
        total(snapshot_of(chain)) == minted(transactions_of(chain)),
{
    let none = Map::<Seq<char>, nat>::empty();
    assert(none.dom() =~= Set::<Seq<char>>::empty());
    lemma_replay_conserves(none, transactions_of(chain));
}

} // verus!
