//! The per-client transaction state machine: which transactions are legal
//! given a client's history, and how available, held, total and locked
//! are derived from that history.

use vstd::prelude::*;

use crate::models::{AmountType, ClientId, ClientSummary, Transaction, TransactionId,
    TransactionType};

verus! {

/// Status of a transaction kept in a client's history.
#[derive(Debug, Copy, Clone, PartialEq, Eq, Structural)]
pub enum TransactionStatus {
    /// Accepted and valid; its amount counts toward the available funds.
    Processed,
    /// Under dispute; its amount counts toward the held funds.
    UnderDispute,
    /// Charged back; its amount counts toward nothing, and the account is
    /// permanently frozen.
    ChargeBack,
}

/// One entry of a client's history. A deposit is stored with its amount
/// as given, a withdrawal with the amount negated, so the available funds
/// are a plain sum over `Processed` entries.
#[derive(Debug, Copy, Clone)]
pub struct TransactionRecord {
    pub amount: AmountType,
    pub status: TransactionStatus,
}

/// The mathematical model of one client's history: the recorded
/// transactions in the order they were accepted.
pub type Ledger = Seq<(TransactionId, TransactionRecord)>;

/// Transaction identifiers are unique within one client's ledger.
pub open spec fn ledger_wf(l: Ledger) -> bool {
    forall|i: int, j: int| 0 <= i < j < l.len() ==> l[i].0 != l[j].0
}

/// What a record contributes to the available funds.
pub open spec fn record_available(r: TransactionRecord) -> int {
    if r.status == TransactionStatus::Processed {
        r.amount as int
    } else {
        0
    }
}

/// What a record contributes to the held funds.
pub open spec fn record_held(r: TransactionRecord) -> int {
    if r.status == TransactionStatus::UnderDispute {
        r.amount as int
    } else {
        0
    }
}

/// Available funds: the sum of the amounts of all `Processed` records.
pub open spec fn sum_available(l: Ledger) -> int
    decreases l.len(),
{
    if l.len() == 0 {
        0
    } else {
        sum_available(l.drop_last()) + record_available(l.last().1)
    }
}

/// Held funds: the sum of the amounts of all `UnderDispute` records.
pub open spec fn sum_held(l: Ledger) -> int
    decreases l.len(),
{
    if l.len() == 0 {
        0
    } else {
        sum_held(l.drop_last()) + record_held(l.last().1)
    }
}

/// An account is locked as soon as any record was charged back.
pub open spec fn is_locked(l: Ledger) -> bool {
    exists|i: int| 0 <= i < l.len() && l[i].1.status == TransactionStatus::ChargeBack
}

/// Whether the ledger already holds a record under this identifier.
pub open spec fn contains_tx(l: Ledger, id: TransactionId) -> bool {
    exists|i: int| 0 <= i < l.len() && l[i].0 == id
}

/// The position of the record under this identifier; meaningful only
/// where `contains_tx` holds, and unique under `ledger_wf`.
pub open spec fn tx_index(l: Ledger, id: TransactionId) -> int {
    choose|i: int| 0 <= i < l.len() && l[i].0 == id
}

/// In a well-formed ledger there is only one position per identifier.
pub proof fn lemma_tx_index_unique(l: Ledger, id: TransactionId, i: int)
    requires
        ledger_wf(l),
        0 <= i < l.len(),
        l[i].0 == id,
    ensures
        contains_tx(l, id),
        tx_index(l, id) == i,
{
    assert(contains_tx(l, id));
    let j = tx_index(l, id);
    assert(0 <= j < l.len() && l[j].0 == id);
    if i < j {
        assert(l[i].0 != l[j].0);
    } else if j < i {
        assert(l[j].0 != l[i].0);
    }
}

/// All the state the engine keeps for one client: the history of the
/// transactions accepted so far, in their current status.
#[derive(Debug)]
pub struct ClientData {
    pub transactions_history: Vec<(TransactionId, TransactionRecord)>,
}

impl View for ClientData {
    type V = Ledger;

    open spec fn view(&self) -> Ledger {
        self.transactions_history@
    }
}

impl ClientData {
    pub open spec fn wf(self) -> bool {
        ledger_wf(self@)
    }

    /// An empty history: a freshly created client holds no funds.
    pub fn new() -> (r: Self)
        ensures
            r.wf(),
            r@ == Seq::<(TransactionId, TransactionRecord)>::empty(),
    {
        ClientData { transactions_history: Vec::new() }
    }

    /// The position of the record under `transaction_id`, if any.
    fn find_index(&self, transaction_id: TransactionId) -> (r: Option<usize>)
        ensures
            match r {
                Some(i) => i < self@.len() && self@[i as int].0 == transaction_id,
                None => !contains_tx(self@, transaction_id),
            },
    {
        let n = self.transactions_history.len();
        let mut i: usize = 0;
        while i < n
            invariant
                n == self@.len(),
                i <= n,
                forall|j: int| 0 <= j < i ==> self@[j].0 != transaction_id,
            decreases n - i,
        {
            if self.transactions_history[i].0 == transaction_id {
                return Some(i);
            }
            i += 1;
        }
        None
    }

    /// The available funds, summed over the current history.
    pub fn available(&self) -> (r: i128)
        ensures
            r as int == sum_available(self@),
    {
        let n = self.transactions_history.len();
        let mut total: i128 = 0;
        let mut i: usize = 0;
        while i < n
            invariant
                n == self@.len(),
                i <= n,
                total as int == sum_available(self@.take(i as int)),
                -(i as int) * 0x8000_0000_0000_0000 <= total as int
                    <= (i as int) * 0x8000_0000_0000_0000,
            decreases n - i,
        {
            let e = self.transactions_history[i];
            proof {
                assert(self@.take(i as int + 1).drop_last() =~= self@.take(i as int));
                assert(self@.take(i as int + 1).last() == self@[i as int]);
            }
            if e.1.status == TransactionStatus::Processed {
                total = total + e.1.amount as i128;
            }
            i += 1;
        }
        proof {
            assert(self@.take(n as int) =~= self@);
        }
        total
    }

    /// The held funds, summed over the current history.
    pub fn held(&self) -> (r: i128)
        ensures
            r as int == sum_held(self@),
    {
        let n = self.transactions_history.len();
        let mut total: i128 = 0;
        let mut i: usize = 0;
        while i < n
            invariant
                n == self@.len(),
                i <= n,
                total as int == sum_held(self@.take(i as int)),
                -(i as int) * 0x8000_0000_0000_0000 <= total as int
                    <= (i as int) * 0x8000_0000_0000_0000,
            decreases n - i,
        {
            let e = self.transactions_history[i];
            proof {
                assert(self@.take(i as int + 1).drop_last() =~= self@.take(i as int));
                assert(self@.take(i as int + 1).last() == self@[i as int]);
            }
            if e.1.status == TransactionStatus::UnderDispute {
                total = total + e.1.amount as i128;
            }
            i += 1;
        }
        proof {
            assert(self@.take(n as int) =~= self@);
        }
        total
    }

    /// Whether the account is locked: true as soon as any record in the
    /// history was charged back.
    pub fn locked(&self) -> (r: bool)
        ensures
            r == is_locked(self@),
    {
        let n = self.transactions_history.len();
        let mut i: usize = 0;
        while i < n
            invariant
                n == self@.len(),
                i <= n,
                forall|j: int| 0 <= j < i ==> self@[j].1.status != TransactionStatus::ChargeBack,
            decreases n - i,
        {
            if self.transactions_history[i].1.status == TransactionStatus::ChargeBack {
                return true;
            }
            i += 1;
        }
        false
    }
}

/// The errors a single transaction can be rejected with. A rejection
/// aborts only the offending transaction and leaves the ledger untouched.
#[derive(Debug, Copy, Clone, PartialEq, Eq, Structural)]
pub enum TransactionProcessError {
    NotEnoughFoundsAvailable,
    MissingAmountValue,
    NonPositiveAmountInTransaction,
    TransactionNotFound,
    TransactionAlreadyUnderDispute,
    CannotDisputeWithdrawal,
    TransactionNotUnderDispute,
    AccountLocked,
    TransactionAlreadyProcessed,
}

/// The negated amount; well-behaved for the positive amounts a
/// withdrawal stores.
pub open spec fn neg_amount(a: AmountType) -> AmountType {
    (-(a as int)) as AmountType
}

/// What a deposit does to a ledger: the guards in order, then a new
/// `Processed` record holding the amount as given.
pub open spec fn deposit_outcome(l: Ledger, id: TransactionId, amount: Option<AmountType>)
    -> Result<Ledger, TransactionProcessError> {
    match amount {
        Option::None => Result::Err(TransactionProcessError::MissingAmountValue),
        Option::Some(a) => if a <= 0 {
            Result::Err(TransactionProcessError::NonPositiveAmountInTransaction)
        } else if contains_tx(l, id) {
            Result::Err(TransactionProcessError::TransactionAlreadyProcessed)
        } else {
            Result::Ok(
                l.push((id, TransactionRecord { amount: a, status: TransactionStatus::Processed })),
            )
        },
    }
}

/// What a withdrawal does to a ledger: the guards in order — the
/// available funds are read at call time, so disputed funds cannot be
/// drawn against — then a new `Processed` record holding the negated
/// amount.
pub open spec fn withdrawal_outcome(l: Ledger, id: TransactionId, amount: Option<AmountType>)
    -> Result<Ledger, TransactionProcessError> {
    match amount {
        Option::None => Result::Err(TransactionProcessError::MissingAmountValue),
        Option::Some(a) => if a <= 0 {
            Result::Err(TransactionProcessError::NonPositiveAmountInTransaction)
        } else if a as int > sum_available(l) {
            Result::Err(TransactionProcessError::NotEnoughFoundsAvailable)
        } else if contains_tx(l, id) {
            Result::Err(TransactionProcessError::TransactionAlreadyProcessed)
        } else {
            Result::Ok(
                l.push(
                    (id, TransactionRecord {
                        amount: neg_amount(a),
                        status: TransactionStatus::Processed,
                    }),
                ),
            )
        },
    }
}

/// What a dispute does: the referenced record must exist, still be
/// `Processed` — one unified error covers both a running dispute and a
/// completed chargeback — and be a deposit; then it moves under dispute.
pub open spec fn dispute_outcome(l: Ledger, id: TransactionId)
    -> Result<Ledger, TransactionProcessError> {
    if !contains_tx(l, id) {
        Result::Err(TransactionProcessError::TransactionNotFound)
    } else {
        let i = tx_index(l, id);
        let r = l[i].1;
        if r.status != TransactionStatus::Processed {
            Result::Err(TransactionProcessError::TransactionAlreadyUnderDispute)
        } else if r.amount <= 0 {
            Result::Err(TransactionProcessError::CannotDisputeWithdrawal)
        } else {
            Result::Ok(
                l.update(
                    i,
                    (id, TransactionRecord {
                        amount: r.amount,
                        status: TransactionStatus::UnderDispute,
                    }),
                ),
            )
        }
    }
}

/// What a resolve does: the referenced record must exist and be under
/// dispute; then it returns to `Processed`.
pub open spec fn resolve_outcome(l: Ledger, id: TransactionId)
    -> Result<Ledger, TransactionProcessError> {
    if !contains_tx(l, id) {
        Result::Err(TransactionProcessError::TransactionNotFound)
    } else {
        let i = tx_index(l, id);
        let r = l[i].1;
        if r.status != TransactionStatus::UnderDispute {
            Result::Err(TransactionProcessError::TransactionNotUnderDispute)
        } else {
            Result::Ok(
                l.update(
                    i,
                    (id, TransactionRecord {
                        amount: r.amount,
                        status: TransactionStatus::Processed,
                    }),
                ),
            )
        }
    }
}

/// What a chargeback does: the referenced record must exist and be under
/// dispute; then it is charged back for good, which locks the account.
pub open spec fn chargeback_outcome(l: Ledger, id: TransactionId)
    -> Result<Ledger, TransactionProcessError> {
    if !contains_tx(l, id) {
        Result::Err(TransactionProcessError::TransactionNotFound)
    } else {
        let i = tx_index(l, id);
        let r = l[i].1;
        if r.status != TransactionStatus::UnderDispute {
            Result::Err(TransactionProcessError::TransactionNotUnderDispute)
        } else {
            Result::Ok(
                l.update(
                    i,
                    (id, TransactionRecord {
                        amount: r.amount,
                        status: TransactionStatus::ChargeBack,
                    }),
                ),
            )
        }
    }
}

/// One step of the state machine on a single client's ledger: a locked
/// account rejects everything before any per-kind guard runs.
pub open spec fn ledger_outcome(l: Ledger, tx: Transaction)
    -> Result<Ledger, TransactionProcessError> {
    if is_locked(l) {
        Result::Err(TransactionProcessError::AccountLocked)
    } else {
        match tx.transaction_type {
            TransactionType::Deposit => deposit_outcome(l, tx.transaction_id, tx.amount),
            TransactionType::Withdrawal => withdrawal_outcome(l, tx.transaction_id, tx.amount),
            TransactionType::Dispute => dispute_outcome(l, tx.transaction_id),
            TransactionType::Resolve => resolve_outcome(l, tx.transaction_id),
            TransactionType::Chargeback => chargeback_outcome(l, tx.transaction_id),
        }
    }
}

/// The ledger after a step: changed on success, as it was on rejection.
pub open spec fn apply_or_keep(l: Ledger, tx: Transaction) -> Ledger {
    match ledger_outcome(l, tx) {
        Result::Ok(l2) => l2,
        Result::Err(_) => l,
    }
}

impl ClientData {
    /// Runs one transaction against this client's ledger, enforcing the
    /// guards of `ledger_outcome` in their given order. A rejection
    /// leaves the history exactly as it was.
    pub fn apply(&mut self, transaction: &Transaction) -> (r: Result<(), TransactionProcessError>)
        requires
            old(self).wf(),
        ensures
            final(self).wf(),
            (match ledger_outcome(old(self)@, *transaction) {
                Result::Ok(l2) => r == Result::Ok::<(), TransactionProcessError>(())
                    && final(self)@ == l2,
                Result::Err(e) => r == Result::Err::<(), TransactionProcessError>(e)
                    && final(self)@ == old(self)@,
            }),
    {
        if self.locked() {
            return Result::Err(TransactionProcessError::AccountLocked);
        }
        match transaction.transaction_type {
            TransactionType::Deposit => {
                let a = match transaction.amount {
                    Option::None => {
                        return Result::Err(TransactionProcessError::MissingAmountValue);
                    },
                    Option::Some(a) => a,
                };
                if a <= 0 {
                    return Result::Err(TransactionProcessError::NonPositiveAmountInTransaction);
                }
                match self.find_index(transaction.transaction_id) {
                    Option::Some(i) => {
                        proof {
                            assert(contains_tx(self@, transaction.transaction_id));
                        }
                        return Result::Err(TransactionProcessError::TransactionAlreadyProcessed);
                    },
                    Option::None => {},
                }
                self.transactions_history.push(
                    (transaction.transaction_id, TransactionRecord {
                        amount: a,
                        status: TransactionStatus::Processed,
                    }),
                );
                Result::Ok(())
            },
            TransactionType::Withdrawal => {
                let a = match transaction.amount {
                    Option::None => {
                        return Result::Err(TransactionProcessError::MissingAmountValue);
                    },
                    Option::Some(a) => a,
                };
                if a <= 0 {
                    return Result::Err(TransactionProcessError::NonPositiveAmountInTransaction);
                }
                let av = self.available();
                if a as i128 > av {
                    return Result::Err(TransactionProcessError::NotEnoughFoundsAvailable);
                }
                match self.find_index(transaction.transaction_id) {
                    Option::Some(i) => {
                        proof {
                            assert(contains_tx(self@, transaction.transaction_id));
                        }
                        return Result::Err(TransactionProcessError::TransactionAlreadyProcessed);
                    },
                    Option::None => {},
                }
                self.transactions_history.push(
                    (transaction.transaction_id, TransactionRecord {
                        amount: -a,
                        status: TransactionStatus::Processed,
                    }),
                );
                Result::Ok(())
            },
            TransactionType::Dispute => {
                let i = match self.find_index(transaction.transaction_id) {
                    Option::None => {
                        return Result::Err(TransactionProcessError::TransactionNotFound);
                    },
                    Option::Some(i) => i,
                };
                proof {
                    lemma_tx_index_unique(self@, transaction.transaction_id, i as int);
                }
                let e = self.transactions_history[i];
                if e.1.status != TransactionStatus::Processed {
                    return Result::Err(TransactionProcessError::TransactionAlreadyUnderDispute);
                }
                if e.1.amount <= 0 {
                    return Result::Err(TransactionProcessError::CannotDisputeWithdrawal);
                }
                self.set_record(
                    i,
                    (transaction.transaction_id, TransactionRecord {
                        amount: e.1.amount,
                        status: TransactionStatus::UnderDispute,
                    }),
                );
                Result::Ok(())
            },
            TransactionType::Resolve => {
                let i = match self.find_index(transaction.transaction_id) {
                    Option::None => {
                        return Result::Err(TransactionProcessError::TransactionNotFound);
                    },
                    Option::Some(i) => i,
                };
                proof {
                    lemma_tx_index_unique(self@, transaction.transaction_id, i as int);
                }
                let e = self.transactions_history[i];
                if e.1.status != TransactionStatus::UnderDispute {
                    return Result::Err(TransactionProcessError::TransactionNotUnderDispute);
                }
                self.set_record(
                    i,
                    (transaction.transaction_id, TransactionRecord {
                        amount: e.1.amount,
                        status: TransactionStatus::Processed,
                    }),
                );
                Result::Ok(())
            },
            TransactionType::Chargeback => {
                let i = match self.find_index(transaction.transaction_id) {
                    Option::None => {
                        return Result::Err(TransactionProcessError::TransactionNotFound);
                    },
                    Option::Some(i) => i,
                };
                proof {
                    lemma_tx_index_unique(self@, transaction.transaction_id, i as int);
                }
                let e = self.transactions_history[i];
                if e.1.status != TransactionStatus::UnderDispute {
                    return Result::Err(TransactionProcessError::TransactionNotUnderDispute);
                }
                self.set_record(
                    i,
                    (transaction.transaction_id, TransactionRecord {
                        amount: e.1.amount,
                        status: TransactionStatus::ChargeBack,
                    }),
                );
                Result::Ok(())
            },
        }
    }

    /// Overwrites the record at a known position.
    fn set_record(&mut self, i: usize, e: (TransactionId, TransactionRecord))
        requires
            i < old(self)@.len(),
        ensures
            final(self)@ == old(self)@.update(i as int, e),
    {
        self.transactions_history[i] = e;
    }
}

/// A step preserves the uniqueness of transaction identifiers: a success
/// either appends a fresh identifier or rewrites a record in place.
pub proof fn lemma_apply_or_keep_wf(l: Ledger, tx: Transaction)
    requires
        ledger_wf(l),
    ensures
        ledger_wf(apply_or_keep(l, tx)),
{
    let l2 = apply_or_keep(l, tx);
    match ledger_outcome(l, tx) {
        Result::Ok(_) => {
            if l2.len() == l.len() + 1 {
                assert(forall|q: int| 0 <= q < l.len() ==> l2[q] == l[q]);
            } else {
                assert(forall|q: int| 0 <= q < l.len() ==> l2[q].0 == l[q].0);
            }
        },
        Result::Err(_) => {},
    }
}

/// The mathematical model of the whole engine: one ledger per known
/// client, kept in ascending order of client identifier.
pub type Accounts = Seq<(ClientId, Ledger)>;

/// Client identifiers are strictly ascending, hence unique.
pub open spec fn accounts_sorted(m: Accounts) -> bool {
    forall|i: int, j: int| 0 <= i < j < m.len() ==> m[i].0 < m[j].0
}

/// Sorted, and every ledger is well-formed.
pub open spec fn accounts_wf(m: Accounts) -> bool {
    accounts_sorted(m) && (forall|i: int| 0 <= i < m.len() ==> ledger_wf(m[i].1))
}

/// Whether this client has been seen before.
pub open spec fn has_client(m: Accounts, c: ClientId) -> bool {
    exists|i: int| 0 <= i < m.len() && m[i].0 == c
}

/// The position of a known client; unique under `accounts_sorted`.
pub open spec fn client_index(m: Accounts, c: ClientId) -> int {
    choose|i: int| 0 <= i < m.len() && m[i].0 == c
}

/// The ledger of a client. An unknown client has an empty ledger: the
/// ledger is created lazily, and an empty one derives all-zero funds.
pub open spec fn ledger_of(m: Accounts, c: ClientId) -> Ledger {
    if has_client(m, c) {
        m[client_index(m, c)].1
    } else {
        Seq::empty()
    }
}

/// Whether `p` is where a new client `c` belongs in the ascending
/// order: everything before is smaller, everything from it on larger.
pub open spec fn is_insert_position(m: Accounts, c: ClientId, p: int) -> bool {
    0 <= p <= m.len() && (forall|q: int| 0 <= q < p ==> m[q].0 < c) && (forall|q: int|
        p <= q < m.len() ==> c < m[q].0)
}

/// Where a new client belongs in the ascending order.
pub open spec fn insert_position(m: Accounts, c: ClientId) -> int {
    choose|p: int| is_insert_position(m, c, p)
}

/// In a sorted account list there is only one position per client.
pub proof fn lemma_client_index_unique(m: Accounts, c: ClientId, i: int)
    requires
        accounts_sorted(m),
        0 <= i < m.len(),
        m[i].0 == c,
    ensures
        has_client(m, c),
        client_index(m, c) == i,
{
    assert(has_client(m, c));
    let j = client_index(m, c);
    assert(0 <= j < m.len() && m[j].0 == c);
    if i < j {
        assert(m[i].0 < m[j].0);
    } else if j < i {
        assert(m[j].0 < m[i].0);
    }
}

/// A position with everything before it smaller and everything from it
/// on larger is the insert position.
pub proof fn lemma_insert_position_unique(m: Accounts, c: ClientId, p: int)
    requires
        0 <= p <= m.len(),
        forall|q: int| 0 <= q < p ==> m[q].0 < c,
        forall|q: int| p <= q < m.len() ==> c < m[q].0,
    ensures
        insert_position(m, c) == p,
{
    assert(is_insert_position(m, c, p));
    let p2 = insert_position(m, c);
    assert(is_insert_position(m, c, p2));
    if p < p2 {
        assert(m[p].0 < c);
        assert(c < m[p].0);
    } else if p2 < p {
        assert(m[p2].0 < c);
        assert(c < m[p2].0);
    }
}

/// One step of the whole engine: the named client's ledger — empty for a
/// client never seen — takes the step, every other ledger stays; a new
/// client is filed at its place in the ascending order.
pub open spec fn step_model(m: Accounts, tx: Transaction) -> Accounts {
    if has_client(m, tx.client) {
        let i = client_index(m, tx.client);
        m.update(i, (tx.client, apply_or_keep(m[i].1, tx)))
    } else {
        m.insert(
            insert_position(m, tx.client),
            (tx.client, apply_or_keep(Seq::empty(), tx)),
        )
    }
}

/// The model after replaying a whole transaction log in order, starting
/// from no known clients.
pub open spec fn replay(txs: Seq<Transaction>) -> Accounts
    decreases txs.len(),
{
    if txs.len() == 0 {
        Seq::empty()
    } else {
        step_model(replay(txs.drop_last()), txs.last())
    }
}

/// A step keeps the account list sorted and well-formed.
pub proof fn lemma_step_model_wf(m: Accounts, tx: Transaction)
    requires
        accounts_wf(m),
    ensures
        accounts_wf(step_model(m, tx)),
{
    let m2 = step_model(m, tx);
    if has_client(m, tx.client) {
        let i = client_index(m, tx.client);
        assert(0 <= i < m.len() && m[i].0 == tx.client);
        lemma_apply_or_keep_wf(m[i].1, tx);
        assert(forall|q: int| 0 <= q < m2.len() ==> m2[q].0 == m[q].0);
    } else {
        let p = insert_position(m, tx.client);
        assert(forall|q: int| 0 <= q < m.len() ==> m[q].0 != tx.client);
        lemma_insert_position_exists(m, tx.client);
        lemma_apply_or_keep_wf(Seq::empty(), tx);
        m.insert_ensures(p, (tx.client, apply_or_keep(Seq::empty(), tx)));
        assert forall|i: int, j: int| 0 <= i < j < m2.len() implies m2[i].0 < m2[j].0 by {
            if i < p && j < p {
                assert(m2[i] == m[i] && m2[j] == m[j]);
            } else if i < p && j == p {
                assert(m2[i] == m[i]);
            } else if i < p && j > p {
                assert(m2[i] == m[i] && m2[j] == m[j - 1]);
            } else if i == p && j > p {
                assert(m2[j] == m[j - 1]);
            } else {
                assert(m2[i] == m[i - 1] && m2[j] == m[j - 1]);
            }
        }
        assert(forall|i: int| 0 <= i < m2.len() ==> ledger_wf(m2[i].1));
    }
}

/// In a sorted account list an unknown client has a well-defined insert
/// position: the end of the prefix of smaller identifiers.
pub proof fn lemma_insert_position_exists(m: Accounts, c: ClientId)
    requires
        accounts_sorted(m),
        !has_client(m, c),
    ensures
        0 <= insert_position(m, c) <= m.len(),
        forall|q: int| 0 <= q < insert_position(m, c) ==> m[q].0 < c,
        forall|q: int| insert_position(m, c) <= q < m.len() ==> c < m[q].0,
    decreases m.len(),
{
    if m.len() == 0 {
        lemma_insert_position_unique(m, c, 0);
    } else if m.last().0 < c {
        lemma_insert_position_unique(m, c, m.len() as int);
    } else {
        let head = m.drop_last();
        assert(!has_client(head, c)) by {
            if has_client(head, c) {
                let w = choose|i: int| 0 <= i < head.len() && head[i].0 == c;
                assert(m[w].0 == c);
            }
        }
        lemma_insert_position_exists(head, c);
        let p = insert_position(head, c);
        assert(forall|q: int| 0 <= q < p ==> m[q].0 == head[q].0 && m[q].0 < c);
        assert(m.last().0 != c);
        assert(c < m.last().0);
        assert forall|q: int| p <= q < m.len() implies c < m[q].0 by {
            if q < m.len() - 1 {
                assert(m[q].0 == head[q].0);
            }
        }
        lemma_insert_position_unique(m, c, p);
    }
}

/// Clients are independent: a step changes at most the ledger of the
/// client the transaction names; every other client's ledger — and with
/// it that client's derived snapshot — stays exactly as it was.
pub proof fn lemma_clients_independent(m: Accounts, tx: Transaction, c: ClientId)
    requires
        accounts_sorted(m),
        c != tx.client,
    ensures
        ledger_of(step_model(m, tx), c) == ledger_of(m, c),
{
    let m2 = step_model(m, tx);
    if has_client(m, tx.client) {
        let i = client_index(m, tx.client);
        assert(0 <= i < m.len() && m[i].0 == tx.client);
        assert(forall|q: int| 0 <= q < m2.len() ==> m2[q].0 == m[q].0);
        assert(forall|i2: int, j2: int| 0 <= i2 < j2 < m2.len() ==> m2[i2].0 < m2[j2].0);
        if has_client(m, c) {
            let j = client_index(m, c);
            assert(0 <= j < m.len() && m[j].0 == c);
            assert(j != i);
            assert(m2[j] == m[j]);
            lemma_client_index_unique(m2, c, j);
        } else {
            assert(!has_client(m2, c)) by {
                if has_client(m2, c) {
                    let w = choose|q: int| 0 <= q < m2.len() && m2[q].0 == c;
                    assert(m[w].0 == c);
                }
            }
        }
    } else {
        lemma_insert_position_exists(m, tx.client);
        let p = insert_position(m, tx.client);
        m.insert_ensures(p, (tx.client, apply_or_keep(Seq::empty(), tx)));
        assert(m2.len() == m.len() + 1);
        assert(forall|i2: int, j2: int| 0 <= i2 < j2 < m2.len() ==> m2[i2].0 < m2[j2].0) by {
            lemma_step_model_sorted_ids(m, tx);
        }
        if has_client(m, c) {
            let j = client_index(m, c);
            assert(0 <= j < m.len() && m[j].0 == c);
            if j < p {
                assert(m2[j] == m[j]);
                lemma_client_index_unique(m2, c, j);
            } else {
                assert(m2[j + 1] == m[j]);
                lemma_client_index_unique(m2, c, j + 1);
            }
        } else {
            assert(!has_client(m2, c)) by {
                if has_client(m2, c) {
                    let w = choose|q: int| 0 <= q < m2.len() && m2[q].0 == c;
                    if w < p {
                        assert(m[w].0 == c);
                    } else if w == p {
                        assert(m2[w].0 == tx.client);
                    } else {
                        assert(m[w - 1].0 == c);
                    }
                }
            }
        }
    }
}

/// Removing an element and putting another back at the same position is
/// an update in place.
proof fn lemma_remove_insert<T>(s: Seq<T>, i: int, x: T)
    requires
        0 <= i < s.len(),
    ensures
        s.remove(i).insert(i, x) == s.update(i, x),
{
    s.remove_ensures(i);
    s.remove(i).insert_ensures(i, x);
    assert(s.remove(i).insert(i, x) =~= s.update(i, x));
}

/// The engine: every known client's state, in ascending order of client
/// identifier so the summary comes out deterministic.
#[derive(Debug)]
pub struct TransactionsProcessor {
    pub clients_data: Vec<(ClientId, ClientData)>,
}

impl View for TransactionsProcessor {
    type V = Accounts;

    open spec fn view(&self) -> Accounts {
        self.clients_data@.map(|i: int, e: (ClientId, ClientData)| (e.0, e.1@))
    }
}

impl Default for TransactionsProcessor {
    /// An engine that has seen no client yet.
    fn default() -> (r: Self)
        ensures
            r.wf(),
            r@ == Seq::<(ClientId, Ledger)>::empty(),
    {
        let r = TransactionsProcessor { clients_data: Vec::new() };
        proof {
            assert(r@ =~= Seq::<(ClientId, Ledger)>::empty());
        }
        r
    }
}

impl TransactionsProcessor {
    pub open spec fn wf(self) -> bool {
        accounts_wf(self@)
    }

    /// Runs one transaction against the ledger of the client it names,
    /// creating that client on first sight. The call returns exactly the
    /// verdict of `ledger_outcome` on that ledger, the named client's
    /// ledger takes the step, and no other client is touched.
    pub fn process(&mut self, transaction: &Transaction) -> (r: Result<
        (),
        TransactionProcessError,
    >)
        requires
            old(self).wf(),
        ensures
            final(self).wf(),
            final(self)@ == step_model(old(self)@, *transaction),
            (match ledger_outcome(ledger_of(old(self)@, transaction.client), *transaction) {
                Result::Ok(_) => r == Result::Ok::<(), TransactionProcessError>(()),
                Result::Err(e) => r == Result::Err::<(), TransactionProcessError>(e),
            }),
            ledger_of(final(self)@, transaction.client) == apply_or_keep(
                ledger_of(old(self)@, transaction.client),
                *transaction,
            ),
            forall|c: ClientId|
                c != transaction.client ==> ledger_of(final(self)@, c) == ledger_of(old(self)@, c),
    {
        let ghost m0 = self@;
        let ghost tx = *transaction;
        let c = transaction.client;
        let n = self.clients_data.len();
        let mut idx: usize = 0;
        while idx < n && self.clients_data[idx].0 < c
            invariant
                n == self.clients_data@.len(),
                idx <= n,
                m0 == self@,
                forall|q: int| 0 <= q < idx ==> m0[q].0 < c,
            decreases n - idx,
        {
            idx += 1;
        }
        let found = idx < n && self.clients_data[idx].0 == c;
        proof {
            assert(m0.len() == n);
            if found {
                lemma_client_index_unique(m0, c, idx as int);
            } else {
                assert forall|q: int| idx <= q < m0.len() implies c < m0[q].0 by {
                    assert(m0[idx as int].0 >= c);
                    assert(m0[idx as int].0 != c);
                    if q > idx {
                        assert(m0[idx as int].0 < m0[q].0);
                    }
                }
                assert(!has_client(m0, c)) by {
                    if has_client(m0, c) {
                        let w = choose|q: int| 0 <= q < m0.len() && m0[q].0 == c;
                        assert(m0[w].0 < c || c < m0[w].0);
                    }
                }
                lemma_insert_position_unique(m0, c, idx as int);
            }
        }
        let mut entry: (ClientId, ClientData);
        if found {
            entry = self.clients_data.remove(idx);
            proof {
                assert(entry.1@ == m0[idx as int].1);
            }
        } else {
            entry = (c, ClientData::new());
        }
        let ghost l0 = entry.1@;
        proof {
            assert(l0 == ledger_of(m0, c));
            assert(ledger_wf(l0));
        }
        let r = entry.1.apply(transaction);
        proof {
            assert(entry.1@ == apply_or_keep(l0, tx));
        }
        self.clients_data.insert(idx, entry);
        proof {
            let m2 = self@;
            let target = step_model(m0, tx);
            lemma_step_model_wf(m0, tx);
            if found {
                lemma_remove_insert(
                    old(self).clients_data@,
                    idx as int,
                    (c, entry.1),
                );
                assert(self.clients_data@ == old(self).clients_data@.update(
                    idx as int,
                    (c, entry.1),
                ));
                assert forall|q: int| 0 <= q < m2.len() implies m2[q] == target[q] by {
                    if q != idx {
                        assert(self.clients_data@[q] == old(self).clients_data@[q]);
                    }
                }
                assert(m2 =~= target);
            } else {
                assert(self.clients_data@ == old(self).clients_data@.insert(
                    idx as int,
                    (c, entry.1),
                ));
                old(self).clients_data@.insert_ensures(idx as int, (c, entry.1));
                m0.insert_ensures(idx as int, (c, apply_or_keep(l0, tx)));
                assert forall|q: int| 0 <= q < m2.len() implies m2[q] == target[q] by {
                    if q < idx {
                        assert(self.clients_data@[q] == old(self).clients_data@[q]);
                        assert(target[q] == m0[q]);
                    } else if q == idx {
                        assert(self.clients_data@[q] == (c, entry.1));
                        assert(target[q] == (c, apply_or_keep(l0, tx)));
                    } else {
                        assert(self.clients_data@[q] == old(self).clients_data@[q - 1]);
                        assert(target[q] == m0[q - 1]);
                    }
                }
                assert(m2 =~= target);
            }
            assert(m2[idx as int] == (c, apply_or_keep(l0, tx)));
            lemma_client_index_unique(m2, c, idx as int);
            assert(ledger_of(m2, c) == apply_or_keep(l0, tx));
            assert forall|c2: ClientId|
                c2 != tx.client implies ledger_of(m2, c2) == ledger_of(m0, c2) by {
                lemma_clients_independent(m0, tx, c2);
            }
        }
        r
    }
}

/// Available plus held funds stay within the headroom of the record
/// count: every record feeds at most one of the two sums, with at most
/// 2^63 in magnitude.
pub proof fn lemma_sum_bound(l: Ledger)
    ensures
        -(l.len() as int) * 0x8000_0000_0000_0000 <= sum_available(l) + sum_held(l) <= (
        l.len() as int) * 0x8000_0000_0000_0000,
        -(l.len() as int) * 0x8000_0000_0000_0000 <= sum_available(l) <= (l.len() as int)
            * 0x8000_0000_0000_0000,
        -(l.len() as int) * 0x8000_0000_0000_0000 <= sum_held(l) <= (l.len() as int)
            * 0x8000_0000_0000_0000,
    decreases l.len(),
{
    if l.len() > 0 {
        lemma_sum_bound(l.drop_last());
    }
}

/// What appending a record does to the two sums and to the lock.
pub proof fn lemma_sums_push(l: Ledger, e: (TransactionId, TransactionRecord))
    ensures
        sum_available(l.push(e)) == sum_available(l) + record_available(e.1),
        sum_held(l.push(e)) == sum_held(l) + record_held(e.1),
        is_locked(l.push(e)) == (is_locked(l) || e.1.status == TransactionStatus::ChargeBack),
{
    assert(l.push(e).drop_last() =~= l);
    assert(l.push(e).last() == e);
    if is_locked(l.push(e)) {
        let j = choose|j: int|
            0 <= j < l.push(e).len() && l.push(e)[j].1.status == TransactionStatus::ChargeBack;
        if j < l.len() {
            assert(l[j].1.status == TransactionStatus::ChargeBack);
        }
    }
    if is_locked(l) {
        let j = choose|j: int| 0 <= j < l.len() && l[j].1.status == TransactionStatus::ChargeBack;
        assert(l.push(e)[j].1.status == TransactionStatus::ChargeBack);
    }
    if e.1.status == TransactionStatus::ChargeBack {
        assert(l.push(e)[l.len() as int].1.status == TransactionStatus::ChargeBack);
    }
}

/// What rewriting one record in place does to the two sums.
pub proof fn lemma_sums_update(l: Ledger, i: int, e: (TransactionId, TransactionRecord))
    requires
        0 <= i < l.len(),
    ensures
        sum_available(l.update(i, e)) == sum_available(l) - record_available(l[i].1)
            + record_available(e.1),
        sum_held(l.update(i, e)) == sum_held(l) - record_held(l[i].1) + record_held(e.1),
    decreases l.len(),
{
    let l2 = l.update(i, e);
    if i == l.len() - 1 {
        assert(l2.drop_last() =~= l.drop_last());
        assert(l2.last() == e);
    } else {
        assert(l2.drop_last() =~= l.drop_last().update(i, e));
        assert(l2.last() == l.last());
        lemma_sums_update(l.drop_last(), i, e);
        assert(l.drop_last()[i] == l[i]);
    }
}

/// Rewriting a record that was not charged back into one that is not
/// charged back leaves the lock as it was.
pub proof fn lemma_locked_update_noncb(l: Ledger, i: int, e: (TransactionId, TransactionRecord))
    requires
        0 <= i < l.len(),
        l[i].1.status != TransactionStatus::ChargeBack,
        e.1.status != TransactionStatus::ChargeBack,
    ensures
        is_locked(l.update(i, e)) == is_locked(l),
{
    let l2 = l.update(i, e);
    if is_locked(l2) {
        let j = choose|j: int| 0 <= j < l2.len() && l2[j].1.status == TransactionStatus::ChargeBack;
        assert(l[j].1.status == TransactionStatus::ChargeBack);
    }
    if is_locked(l) {
        let j = choose|j: int| 0 <= j < l.len() && l[j].1.status == TransactionStatus::ChargeBack;
        assert(j != i);
        assert(l2[j].1.status == TransactionStatus::ChargeBack);
    }
}

/// A snapshot agrees with one client's entry of the model.
pub open spec fn summary_matches(s: ClientSummary, e: (ClientId, Ledger)) -> bool {
    &&& s.client == e.0
    &&& s.available as int == sum_available(e.1)
    &&& s.held as int == sum_held(e.1)
    &&& s.total as int == sum_available(e.1) + sum_held(e.1)
    &&& s.locked == is_locked(e.1)
}

impl TransactionsProcessor {
    /// The summary of all client accounts: one snapshot per known
    /// client, in ascending order of client identifier, each derived
    /// from that client's ledger alone.
    pub fn summary(&self) -> (r: Vec<ClientSummary>)
        requires
            self.wf(),
        ensures
            r@.len() == self@.len(),
            forall|i: int| 0 <= i < r@.len() ==> summary_matches(r@[i], self@[i]),
            forall|i: int, j: int| 0 <= i < j < r@.len() ==> r@[i].client < r@[j].client,
    {
        let n = self.clients_data.len();
        let mut out: Vec<ClientSummary> = Vec::new();
        let mut i: usize = 0;
        while i < n
            invariant
                self.wf(),
                n == self@.len(),
                i <= n,
                out@.len() == i as int,
                forall|q: int| 0 <= q < i ==> summary_matches(out@[q], self@[q]),
            decreases n - i,
        {
            let entry = &self.clients_data[i];
            let available = entry.1.available();
            let held = entry.1.held();
            let locked = entry.1.locked();
            let hist_len = entry.1.transactions_history.len();
            proof {
                lemma_sum_bound(entry.1@);
                assert(entry.1@.len() == hist_len as int);
            }
            let total = available + held;
            out.push(
                ClientSummary { client: entry.0, available, held, total, locked },
            );
            i += 1;
        }
        out
    }
}

impl TransactionProcessError {
    /// The human-readable description of each error, in specification
    /// form.
    pub open spec fn message_spec(self) -> Seq<char> {
        match self {
            TransactionProcessError::NotEnoughFoundsAvailable => "Not enough founds"@,
            TransactionProcessError::MissingAmountValue => "Missing required amount value"@,
            TransactionProcessError::NonPositiveAmountInTransaction
                => "Non positive amount in transaction"@,
            TransactionProcessError::TransactionNotFound => "Transaction not found"@,
            TransactionProcessError::TransactionAlreadyUnderDispute
                => "Transaction already under dispute"@,
            TransactionProcessError::CannotDisputeWithdrawal
                => "Transaction to be disputed was withdrawal"@,
            TransactionProcessError::TransactionNotUnderDispute
                => "Transaction not under dispute"@,
            TransactionProcessError::AccountLocked => "Account Locked"@,
            TransactionProcessError::TransactionAlreadyProcessed
                => "Transaction already processed"@,
        }
    }

    /// A human-readable description of the error, for diagnostics.
    pub fn message(&self) -> (r: String)
        ensures
            r@ == self.message_spec(),
    {
        match self {
            TransactionProcessError::NotEnoughFoundsAvailable => "Not enough founds".to_owned(),
            TransactionProcessError::MissingAmountValue => "Missing required amount value"
                .to_owned(),
            TransactionProcessError::NonPositiveAmountInTransaction
                => "Non positive amount in transaction".to_owned(),
            TransactionProcessError::TransactionNotFound => "Transaction not found".to_owned(),
            TransactionProcessError::TransactionAlreadyUnderDispute
                => "Transaction already under dispute".to_owned(),
            TransactionProcessError::CannotDisputeWithdrawal
                => "Transaction to be disputed was withdrawal".to_owned(),
            TransactionProcessError::TransactionNotUnderDispute
                => "Transaction not under dispute".to_owned(),
            TransactionProcessError::AccountLocked => "Account Locked".to_owned(),
            TransactionProcessError::TransactionAlreadyProcessed
                => "Transaction already processed".to_owned(),
        }
    }
}

/// A step rewrites the named client's ledger by `apply_or_keep`,
/// whether the client existed before or is first seen by the step.
pub proof fn lemma_step_ledger_own(m: Accounts, tx: Transaction)
    requires
        accounts_sorted(m),
    ensures
        ledger_of(step_model(m, tx), tx.client) == apply_or_keep(ledger_of(m, tx.client), tx),
{
    let c = tx.client;
    let m2 = step_model(m, tx);
    lemma_step_model_sorted_ids(m, tx);
    if has_client(m, c) {
        let i = client_index(m, c);
        assert(0 <= i < m.len() && m[i].0 == c);
        assert(m2[i] == (c, apply_or_keep(m[i].1, tx)));
        lemma_client_index_unique(m2, c, i);
    } else {
        lemma_insert_position_exists(m, c);
        let p = insert_position(m, c);
        m.insert_ensures(p, (c, apply_or_keep(Seq::empty(), tx)));
        assert(m2[p] == (c, apply_or_keep(Seq::empty(), tx)));
        lemma_client_index_unique(m2, c, p);
    }
}

/// Replaying any log yields a well-formed model.
pub proof fn lemma_replay_wf(txs: Seq<Transaction>)
    ensures
        accounts_wf(replay(txs)),
    decreases txs.len(),
{
    if txs.len() > 0 {
        lemma_replay_wf(txs.drop_last());
        lemma_step_model_wf(replay(txs.drop_last()), txs.last());
    }
}

/// After a step the client identifiers are still strictly ascending.
pub proof fn lemma_step_model_sorted_ids(m: Accounts, tx: Transaction)
    requires
        accounts_sorted(m),
    ensures
        accounts_sorted(step_model(m, tx)),
{
    let m2 = step_model(m, tx);
    if has_client(m, tx.client) {
        let i = client_index(m, tx.client);
        assert(0 <= i < m.len() && m[i].0 == tx.client);
        assert(forall|q: int| 0 <= q < m2.len() ==> m2[q].0 == m[q].0);
    } else {
        lemma_insert_position_exists(m, tx.client);
        let p = insert_position(m, tx.client);
        m.insert_ensures(p, (tx.client, apply_or_keep(Seq::empty(), tx)));
        assert forall|i: int, j: int| 0 <= i < j < m2.len() implies m2[i].0 < m2[j].0 by {
            if i < p && j < p {
                assert(m2[i] == m[i] && m2[j] == m[j]);
            } else if i < p && j == p {
                assert(m2[i] == m[i]);
            } else if i < p && j > p {
                assert(m2[i] == m[i] && m2[j] == m[j - 1]);
            } else if i == p && j > p {
                assert(m2[j] == m[j - 1]);
            } else {
                assert(m2[i] == m[i - 1] && m2[j] == m[j - 1]);
            }
        }
    }
}

} // verus!
