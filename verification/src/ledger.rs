//! Accounts, transactions, and the ledger that applying transactions yields.
//!
//! Contracts speak of a ledger as a map from account identifier to balance,
//! with balances as unbounded naturals. The executable ledger stores `u64`
//! balances, so it refuses the one step that the map can take and it cannot:
//! a credit that would carry a balance past `u64::MAX`.

use vstd::prelude::*;
use vstd::string::*;
use crate::error::ServiceError;

verus! {

/// A ledger as contracts see it: the balance of every account that was ever
/// credited.
pub type Balances = Map<Seq<char>, nat>;

/// A transaction as contracts see it.
pub enum TransactionView {
    Mint { tx_id: Seq<char>, to: Seq<char>, amount: nat },
    Transfer { tx_id: Seq<char>, from: Seq<char>, to: Seq<char>, amount: nat },
}

/// A change to the balances of a ledger.
#[derive(Debug, PartialEq, Eq)]
pub enum Transaction {
    /// Credits `amount` to `to`.
    Mint { tx_id: String, to: String, amount: u64 },
    /// Moves `amount` from `from` to `to`.
    Transfer { tx_id: String, from: String, to: String, amount: u64 },
}

impl View for Transaction {
    type V = TransactionView;

    open spec fn view(&self) -> TransactionView {
        match *self {
            Transaction::Mint { tx_id, to, amount } => TransactionView::Mint {
                tx_id: tx_id@,
                to: to@,
                amount: amount as nat,
            },
            Transaction::Transfer { tx_id, from, to, amount } => TransactionView::Transfer {
                tx_id: tx_id@,
                from: from@,
                to: to@,
                amount: amount as nat,
            },
        }
    }
}

impl Clone for Transaction {
    fn clone(&self) -> (copy: Self)
        ensures
            copy@ == self@,
    {
        match self {
            Transaction::Mint { tx_id, to, amount } => Transaction::Mint {
                tx_id: tx_id.clone(),
                to: to.clone(),
                amount: *amount,
            },
            Transaction::Transfer { tx_id, from, to, amount } => Transaction::Transfer {
                tx_id: tx_id.clone(),
                from: from.clone(),
                to: to.clone(),
                amount: *amount,
            },
        }
    }
}

/// The views of a sequence of transactions, in order.
pub open spec fn transaction_views(transactions: Seq<Transaction>) -> Seq<TransactionView> {
    transactions.map_values(|tx: Transaction| tx@)
}

/// One account of a ledger.
#[derive(Debug, PartialEq, Eq)]
pub struct Account {
    pub id: String,
    pub balance: u64,
}

impl Clone for Account {
    fn clone(&self) -> (copy: Self)
        ensures
            copy.id@ == self.id@,
            copy.balance == self.balance,
    {
        Account { id: self.id.clone(), balance: self.balance }
    }
}

/// Adds `amount` to the balance of `to`, opening the account if it is new.
pub open spec fn credit(ledger: Balances, to: Seq<char>, amount: nat) -> Balances {
    if ledger.contains_key(to) {
        ledger.insert(to, ledger[to] + amount)
    } else {
        ledger.insert(to, amount)
    }
}

/// Whether `from` exists and holds at least `amount`.
pub open spec fn funded(ledger: Balances, from: Seq<char>, amount: nat) -> bool {
    ledger.contains_key(from) && ledger[from] >= amount
}

/// Takes `amount` from the balance of `from` if the account is funded, and
/// leaves the ledger as it is otherwise.
pub open spec fn debit(ledger: Balances, from: Seq<char>, amount: nat) -> Balances {
    if funded(ledger, from, amount) {
        ledger.insert(from, (ledger[from] - amount) as nat)
    } else {
        ledger
    }
}

/// The ledger after one transaction.
///
/// A transfer credits the recipient whether or not the sender was debited:
/// a transfer from an unknown or underfunded sender creates value.
pub open spec fn apply(ledger: Balances, tx: TransactionView) -> Balances {
    match tx {
        TransactionView::Mint { to, amount, .. } => credit(ledger, to, amount),
        TransactionView::Transfer { from, to, amount, .. } => credit(
            debit(ledger, from, amount),
            to,
            amount,
        ),
    }
}

/// The ledger after a sequence of transactions, applied in order.
pub open spec fn replay(ledger: Balances, transactions: Seq<TransactionView>) -> Balances
    decreases transactions.len(),
{
    if transactions.len() == 0 {
        ledger
    } else {
        apply(replay(ledger, transactions.drop_last()), transactions.last())
    }
}

/// Whether every balance of the ledger fits in a `u64`.
pub open spec fn within_limits(ledger: Balances) -> bool {
    forall|id: Seq<char>| ledger.contains_key(id) ==> #[trigger] ledger[id] <= u64::MAX
}

/// Whether the ledger stays within limits after each of the transactions.
pub open spec fn replay_within_limits(ledger: Balances, transactions: Seq<TransactionView>) -> bool
    decreases transactions.len(),
{
    if transactions.len() == 0 {
        true
    } else {
        &&& replay_within_limits(ledger, transactions.drop_last())
        &&& within_limits(replay(ledger, transactions))
    }
}

/// Whether no two accounts of the sequence share an identifier.
pub open spec fn distinct_ids(accounts: Seq<Account>) -> bool {
    forall|i: int, j: int|
        0 <= i < j < accounts.len() ==> (#[trigger] accounts[i]).id@ != (#[trigger] accounts[j]).id@
}

/// Whether some account of the sequence has the identifier `id`.
pub open spec fn lists(accounts: Seq<Account>, id: Seq<char>) -> bool {
    exists|i: int| 0 <= i < accounts.len() && (#[trigger] accounts[i]).id@ == id
}

/// The position of an account with the identifier `id`.
pub open spec fn slot_of(accounts: Seq<Account>, id: Seq<char>) -> int {
    choose|i: int| 0 <= i < accounts.len() && (#[trigger] accounts[i]).id@ == id
}

/// The balances that a sequence of accounts records.
pub open spec fn balances_of(accounts: Seq<Account>) -> Balances {
    Map::new(
        |id: Seq<char>| lists(accounts, id),
        |id: Seq<char>| accounts[slot_of(accounts, id)].balance as nat,
    )
}

/// With distinct identifiers, each account is found under its own identifier.
pub proof fn lemma_balance_at(accounts: Seq<Account>, i: int)
    requires
        distinct_ids(accounts),
        0 <= i < accounts.len(),
    ensures
        balances_of(accounts).contains_key(accounts[i].id@),
        balances_of(accounts)[accounts[i].id@] == accounts[i].balance,
{
    let id = accounts[i].id@;
    assert(lists(accounts, id));
    let k = slot_of(accounts, id);
    assert(0 <= k < accounts.len() && accounts[k].id@ == id);
    if k < i {
        assert(accounts[k].id@ != accounts[i].id@);
    } else if i < k {
        assert(accounts[i].id@ != accounts[k].id@);
    }
}

/// Replacing the balance of one account replaces one entry of the balances.
pub proof fn lemma_balances_update(accounts: Seq<Account>, i: int, changed: Account)
    requires
        distinct_ids(accounts),
        0 <= i < accounts.len(),
        changed.id@ == accounts[i].id@,
    ensures
        distinct_ids(accounts.update(i, changed)),
        balances_of(accounts.update(i, changed)) == balances_of(accounts).insert(
            changed.id@,
            changed.balance as nat,
        ),
{
    let after = accounts.update(i, changed);
    assert forall|a: int, b: int| 0 <= a < b < after.len() implies (#[trigger] after[a]).id@ != (
    #[trigger] after[b]).id@ by {
        assert(after[a].id@ == accounts[a].id@);
        assert(after[b].id@ == accounts[b].id@);
    }
    let left = balances_of(after);
    let right = balances_of(accounts).insert(changed.id@, changed.balance as nat);
    assert forall|id: Seq<char>| left.contains_key(id) <==> right.contains_key(id) by {
        if lists(after, id) {
            let k = slot_of(after, id);
            assert(accounts[k].id@ == id);
        }
        if lists(accounts, id) {
            let k = slot_of(accounts, id);
            assert(after[k].id@ == id);
        }
        if id == changed.id@ {
            assert(after[i].id@ == id);
        }
    }
    assert forall|id: Seq<char>| left.contains_key(id) implies left[id] == right[id] by {
        let k = slot_of(after, id);
        lemma_balance_at(after, k);
        if k != i {
            lemma_balance_at(accounts, k);
        }
    }
    assert(left =~= right);
}

/// Appending an account with a fresh identifier adds one entry to the balances.
pub proof fn lemma_balances_push(accounts: Seq<Account>, added: Account)
    requires
        distinct_ids(accounts),
        !lists(accounts, added.id@),
    ensures
        distinct_ids(accounts.push(added)),
        balances_of(accounts.push(added)) == balances_of(accounts).insert(
            added.id@,
            added.balance as nat,
        ),
{
    let after = accounts.push(added);
    let n = accounts.len() as int;
    assert forall|a: int, b: int| 0 <= a < b < after.len() implies (#[trigger] after[a]).id@ != (
    #[trigger] after[b]).id@ by {
        assert(after[a] == accounts[a]);
        if b < n {
            assert(after[b] == accounts[b]);
        } else {
            assert(after[b].id@ == added.id@);
        }
    }
    let left = balances_of(after);
    let right = balances_of(accounts).insert(added.id@, added.balance as nat);
    assert forall|id: Seq<char>| left.contains_key(id) <==> right.contains_key(id) by {
        if lists(after, id) {
            let k = slot_of(after, id);
            if k < n {
                assert(accounts[k].id@ == id);
            }
        }
        if lists(accounts, id) {
            let k = slot_of(accounts, id);
            assert(after[k].id@ == id);
        }
        if id == added.id@ {
            assert(after[n].id@ == id);
        }
    }
    assert forall|id: Seq<char>| left.contains_key(id) implies left[id] == right[id] by {
        let k = slot_of(after, id);
        lemma_balance_at(after, k);
        if k < n {
            assert(after[k] == accounts[k]);
            lemma_balance_at(accounts, k);
        }
    }
    assert(left =~= right);
}

/// With distinct identifiers, the balances have one entry for each account.
pub proof fn lemma_balances_len(accounts: Seq<Account>)
    requires
        distinct_ids(accounts),
    ensures
        balances_of(accounts).dom().finite(),
        balances_of(accounts).dom().len() == accounts.len(),
    decreases accounts.len(),
{
    if accounts.len() == 0 {
        assert(balances_of(accounts).dom() =~= Set::<Seq<char>>::empty());
    } else {
        let front = accounts.drop_last();
        let last = accounts.last();
        assert(distinct_ids(front)) by {
            assert forall|a: int, b: int| 0 <= a < b < front.len() implies (#[trigger] front[a]).id@
                != (#[trigger] front[b]).id@ by {
                assert(front[a] == accounts[a]);
                assert(front[b] == accounts[b]);
            }
        }
        assert(!lists(front, last.id@)) by {
            if lists(front, last.id@) {
                let k = slot_of(front, last.id@);
                assert(front[k] == accounts[k]);
                assert(accounts[k].id@ != accounts[accounts.len() - 1].id@);
            }
        }
        lemma_balances_len(front);
        lemma_balances_push(front, last);
        assert(front.push(last) =~= accounts);
        assert(balances_of(accounts).dom() =~= balances_of(front).dom().insert(last.id@));
        assert(!balances_of(front).dom().contains(last.id@));
    }
}

/// The balances depend only on the identifiers and balances of the accounts.
pub proof fn lemma_balances_same(left: Seq<Account>, right: Seq<Account>)
    requires
        left.len() == right.len(),
        forall|i: int|
            0 <= i < left.len() ==> (#[trigger] left[i]).id@ == right[i].id@ && left[i].balance
                == right[i].balance,
        distinct_ids(left),
    ensures
        distinct_ids(right),
        balances_of(left) == balances_of(right),
{
    assert forall|a: int, b: int| 0 <= a < b < right.len() implies (#[trigger] right[a]).id@ != (
    #[trigger] right[b]).id@ by {
        assert(left[a].id@ == right[a].id@);
        assert(left[b].id@ == right[b].id@);
    }
    let l = balances_of(left);
    let r = balances_of(right);
    assert forall|id: Seq<char>| l.contains_key(id) <==> r.contains_key(id) by {
        if lists(left, id) {
            let k = slot_of(left, id);
            assert(left[k].id@ == right[k].id@);
            assert(right[k].id@ == id);
        }
        if lists(right, id) {
            let k = slot_of(right, id);
            assert(left[k].id@ == right[k].id@);
        }
    }
    assert forall|id: Seq<char>| l.contains_key(id) implies l[id] == r[id] by {
        let k = slot_of(left, id);
        lemma_balance_at(left, k);
        assert(left[k].id@ == right[k].id@);
        lemma_balance_at(right, k);
    }
    assert(l =~= r);
}

/// Balances read off stored accounts fit in a `u64`.
pub proof fn lemma_recorded_within_limits(accounts: Seq<Account>)
    ensures
        within_limits(balances_of(accounts)),
{
    assert forall|id: Seq<char>| balances_of(accounts).contains_key(id) implies #[trigger] balances_of(
        accounts,
    )[id] <= u64::MAX by {
        assert(accounts[slot_of(accounts, id)].balance <= u64::MAX);
    }
}

fn find(accounts: &Vec<Account>, id: &String) -> (slot: Option<usize>)
    ensures
        match slot {
            Some(i) => i < accounts.len() && accounts[i as int].id@ == id@,
            None => !lists(accounts@, id@),
        },
{
    let mut i: usize = 0;
    while i < accounts.len()
        invariant
            i <= accounts.len(),
            forall|j: int| 0 <= j < i ==> (#[trigger] accounts[j]).id@ != id@,
        decreases accounts.len() - i,
    {
        if accounts[i].id == *id {
            return Some(i);
        }
        i += 1;
    }
    None
}

fn set_balance(accounts: &mut Vec<Account>, i: usize, balance: u64)
    requires
        distinct_ids(old(accounts)@),
        i < old(accounts).len(),
    ensures
        distinct_ids(final(accounts)@),
        final(accounts).len() == old(accounts).len(),
        balances_of(final(accounts)@) == balances_of(old(accounts)@).insert(
            old(accounts)[i as int].id@,
            balance as nat,
        ),
        forall|k: int|
            0 <= k < old(accounts).len() ==> (#[trigger] final(accounts)[k]).id@ == old(
                accounts,
            )[k].id@,
{
    let id = accounts[i].id.clone();
    let changed = Account { id, balance };
    proof {
        lemma_balances_update(accounts@, i as int, changed);
    }
    accounts.set(i, changed);
}

fn credit_account(accounts: &mut Vec<Account>, to: &String, amount: u64) -> (outcome: Result<
    (),
    ServiceError,
>)
    requires
        distinct_ids(old(accounts)@),
    ensures
        distinct_ids(final(accounts)@),
        outcome is Ok <==> within_limits(credit(balances_of(old(accounts)@), to@, amount as nat)),
        outcome is Ok ==> balances_of(final(accounts)@) == credit(
            balances_of(old(accounts)@),
            to@,
            amount as nat,
        ),
        outcome is Err ==> final(accounts)@ == old(accounts)@,
        outcome is Err ==> outcome == Err::<(), ServiceError>(ServiceError::BalanceOverflow),
{
    proof {
        lemma_recorded_within_limits(accounts@);
    }
    match find(accounts, to) {
        Some(i) => {
            let held = accounts[i].balance;
            proof {
                lemma_balance_at(accounts@, i as int);
            }
            if held > u64::MAX - amount {
                assert(credit(balances_of(accounts@), to@, amount as nat)[to@] > u64::MAX);
                Err(ServiceError::BalanceOverflow)
            } else {
                set_balance(accounts, i, held + amount);
                Ok(())
            }
        },
        None => {
            let opened = Account { id: to.clone(), balance: amount };
            proof {
                lemma_balances_push(accounts@, opened);
            }
            accounts.push(opened);
            Ok(())
        },
    }
}

fn apply_to_accounts(accounts: &mut Vec<Account>, tx: &Transaction) -> (outcome: Result<
    (),
    ServiceError,
>)
    requires
        distinct_ids(old(accounts)@),
    ensures
        distinct_ids(final(accounts)@),
        outcome is Ok <==> within_limits(apply(balances_of(old(accounts)@), tx@)),
        outcome is Ok ==> balances_of(final(accounts)@) == apply(balances_of(old(accounts)@), tx@),
        outcome is Err ==> balances_of(final(accounts)@) == balances_of(old(accounts)@),
        outcome is Err ==> outcome == Err::<(), ServiceError>(ServiceError::BalanceOverflow),
{
    match tx {
        Transaction::Mint { to, amount, .. } => credit_account(accounts, to, *amount),
        Transaction::Transfer { from, to, amount, .. } => {
            let ghost before = balances_of(accounts@);
            let mut taken: Option<(usize, u64)> = None;
            if let Some(i) = find(accounts, from) {
                let held = accounts[i].balance;
                proof {
                    lemma_balance_at(accounts@, i as int);
                }
                if held >= *amount {
                    set_balance(accounts, i, held - *amount);
                    taken = Some((i, held));
                }
            }
            assert(balances_of(accounts@) == debit(before, from@, *amount as nat));
            match credit_account(accounts, to, *amount) {
                Ok(()) => Ok(()),
                Err(e) => {
                    if let Some((i, held)) = taken {
                        set_balance(accounts, i, held);
                        assert(balances_of(accounts@) =~= before);
                    }
                    Err(e)
                },
            }
        },
    }
}

/// The balances of one branch: one account for each identifier.
pub struct Ledger {
    accounts: Vec<Account>,
}

impl View for Ledger {
    type V = Balances;

    closed spec fn view(&self) -> Balances {
        balances_of(self.accounts@)
    }
}

impl Ledger {
    #[verifier::type_invariant]
    spec fn distinct(self) -> bool {
        distinct_ids(self.accounts@)
    }

    /// A ledger without accounts.
    pub fn new() -> (ledger: Self)
        ensures
            ledger@ == Map::<Seq<char>, nat>::empty(),
    {
        let ledger = Ledger { accounts: Vec::new() };
        assert(ledger@ =~= Map::<Seq<char>, nat>::empty());
        ledger
    }

    /// The number of distinct accounts.
    pub fn len(&self) -> (count: usize)
        ensures
            self@.dom().finite(),
            count == self@.dom().len(),
    {
        proof {
            use_type_invariant(self);
            lemma_balances_len(self.accounts@);
        }
        self.accounts.len()
    }

    /// The accounts, each identifier once.
    pub fn accounts(&self) -> (accounts: &Vec<Account>)
        ensures
            distinct_ids(accounts@),
            balances_of(accounts@) == self@,
    {
        proof {
            use_type_invariant(self);
        }
        &self.accounts
    }

    /// The balance of the account `id`, if the ledger has it.
    pub fn balance(&self, id: &str) -> (balance: Option<u64>)
        ensures
            balance is Some <==> self@.contains_key(id@),
            balance is Some ==> balance->0 == self@[id@],
    {
        proof {
            use_type_invariant(self);
        }
        let key = id.to_owned();
        match find(&self.accounts, &key) {
            Some(i) => {
                proof {
                    lemma_balance_at(self.accounts@, i as int);
                }
                Some(self.accounts[i].balance)
            },
            None => None,
        }
    }

    /// A ledger with the same balances.
    pub fn duplicate(&self) -> (copy: Self)
        ensures
            copy@ == self@,
    {
        proof {
            use_type_invariant(self);
        }
        let mut accounts: Vec<Account> = Vec::new();
        let mut i: usize = 0;
        while i < self.accounts.len()
            invariant
                i <= self.accounts.len(),
                accounts.len() == i,
                forall|k: int|
                    0 <= k < i ==> (#[trigger] self.accounts[k]).id@ == accounts[k].id@
                        && self.accounts[k].balance == accounts[k].balance,
            decreases self.accounts.len() - i,
        {
            accounts.push(self.accounts[i].clone());
            i += 1;
        }
        proof {
            lemma_balances_same(self.accounts@, accounts@);
        }
        Ledger { accounts }
    }

    /// Applies one transaction, or refuses it and leaves the ledger as it
    /// was when the credit would overflow.
    pub fn apply(&mut self, tx: &Transaction) -> (outcome: Result<(), ServiceError>)
        ensures
            outcome is Ok <==> within_limits(apply(old(self)@, tx@)),
            outcome is Ok ==> final(self)@ == apply(old(self)@, tx@),
            outcome is Err ==> final(self)@ == old(self)@,
            outcome is Err ==> outcome == Err::<(), ServiceError>(ServiceError::BalanceOverflow),
    {
        proof {
            use_type_invariant(&*self);
        }
        let mut accounts: Vec<Account> = Vec::new();
        std::mem::swap(&mut accounts, &mut self.accounts);
        let outcome = apply_to_accounts(&mut accounts, tx);
        self.accounts = accounts;
        outcome
    }

    /// The ledger after the transactions, applied in order; or the overflow
    /// that stops them.
    pub fn replay(self, transactions: &Vec<Transaction>) -> (outcome: Result<Ledger, ServiceError>)
        ensures
            outcome is Ok <==> replay_within_limits(self@, transaction_views(transactions@)),
            outcome matches Ok(ledger) ==> ledger@ == replay(
                self@,
                transaction_views(transactions@),
            ),
            outcome is Err ==> outcome->Err_0 == ServiceError::BalanceOverflow,
    {
        let ghost views = transaction_views(transactions@);
        let ghost start = self@;
        let mut ledger = self;
        let mut i: usize = 0;
        while i < transactions.len()
            invariant
                i <= transactions.len(),
                views == transaction_views(transactions@),
                start == self@,
                ledger@ == replay(start, views.take(i as int)),
                replay_within_limits(start, views.take(i as int)),
            decreases transactions.len() - i,
        {
            proof {
                assert(views.take(i + 1).drop_last() =~= views.take(i as int));
                assert(views.take(i + 1).last() == transactions[i as int]@);
            }
            match ledger.apply(&transactions[i]) {
                Ok(()) => {},
                Err(e) => {
                    proof {
                        if replay_within_limits(start, views) {
                            lemma_replay_limits_prefix(start, views, i + 1);
                        }
                    }
                    return Err(e);
                },
            }
            i += 1;
        }
        proof {
            assert(views.take(i as int) =~= views);
        }
        Ok(ledger)
    }
}

/// A replay that stays within limits stays within them up to each of its
/// transactions.
pub proof fn lemma_replay_limits_prefix(ledger: Balances, transactions: Seq<TransactionView>, n: int)
    requires
        0 <= n <= transactions.len(),
        replay_within_limits(ledger, transactions),
    ensures
        replay_within_limits(ledger, transactions.take(n)),
    decreases transactions.len(),
{
    if n == transactions.len() {
        assert(transactions.take(n) =~= transactions);
    } else {
        lemma_replay_limits_prefix(ledger, transactions.drop_last(), n);
        assert(transactions.drop_last().take(n) =~= transactions.take(n));
    }
}

} // verus!
