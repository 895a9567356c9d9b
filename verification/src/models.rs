//! The data model: transaction values as the input layer hands them over,
//! and the account snapshots the summary produces.

use vstd::prelude::*;

verus! {

/// Identifier of a client account; an opaque key.
pub type ClientId = u64;

/// Identifier of a transaction; unique only within one client's ledger.
pub type TransactionId = u64;

/// A monetary value in fixed-point representation: the decimal amount
/// scaled by 10,000, so four decimal digits are carried exactly.
pub type AmountType = i64;

/// The five kinds of transaction the engine accepts.
#[derive(Debug, Copy, Clone, PartialEq, Eq, Structural)]
pub enum TransactionType {
    Deposit,
    Withdrawal,
    Dispute,
    Resolve,
    Chargeback,
}

/// One input record. `amount` is required for deposits and withdrawals
/// and absent for the dispute family, which references a prior
/// transaction by its identifier instead.
#[derive(Debug, Copy, Clone)]
pub struct Transaction {
    pub transaction_type: TransactionType,
    pub client: ClientId,
    pub transaction_id: TransactionId,
    pub amount: Option<AmountType>,
}

/// The derived state of one client account, computed on demand from the
/// client's ledger; never stored. Amounts are fixed-point values wide
/// enough to hold any sum of 64-bit records.
#[derive(Debug, Copy, Clone, PartialEq)]
pub struct ClientSummary {
    pub client: ClientId,
    pub available: i128,
    pub held: i128,
    pub total: i128,
    pub locked: bool,
}

} // verus!
