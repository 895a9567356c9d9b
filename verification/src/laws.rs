//! The general laws of the state machine, each proved once and for all
//! over the specification model the executable contracts speak of.

use vstd::prelude::*;

use crate::models::{AmountType, ClientId, Transaction, TransactionType};
use crate::processor::{
    apply_or_keep, contains_tx, is_locked, ledger_of, ledger_outcome, ledger_wf,
    lemma_clients_independent, lemma_locked_update_noncb, lemma_replay_wf, lemma_step_ledger_own,
    lemma_sums_push, lemma_sums_update, neg_amount, replay, sum_available, sum_held, tx_index,
    Ledger, TransactionProcessError, TransactionRecord, TransactionStatus,
};

verus! {

/// A history of deposits alone: every record is still `Processed`.
pub open spec fn deposits_only(l: Ledger) -> bool {
    forall|i: int| 0 <= i < l.len() ==> l[i].1.status == TransactionStatus::Processed
}

/// Under a history of deposits alone nothing is held, the account is
/// not locked, and the total equals the available funds.
pub proof fn lemma_deposits_only_balances(l: Ledger)
    requires
        deposits_only(l),
    ensures
        sum_held(l) == 0,
        !is_locked(l),
        sum_available(l) + sum_held(l) == sum_available(l),
    decreases l.len(),
{
    if l.len() > 0 {
        assert(deposits_only(l.drop_last()));
        lemma_deposits_only_balances(l.drop_last());
    }
}

/// A deposit — accepted or rejected — leaves a history of deposits
/// alone in that state.
pub proof fn lemma_deposit_keeps_deposits_only(l: Ledger, tx: Transaction)
    requires
        deposits_only(l),
        tx.transaction_type == TransactionType::Deposit,
    ensures
        deposits_only(apply_or_keep(l, tx)),
{
    lemma_deposits_only_balances(l);
    let l2 = apply_or_keep(l, tx);
    match ledger_outcome(l, tx) {
        Result::Ok(_) => {
            assert(forall|i: int| 0 <= i < l.len() ==> l2[i] == l[i]);
        },
        Result::Err(_) => {},
    }
}

/// A whole log of deposits — each accepted or rejected — leaves every
/// client with a history of deposits alone: nothing is held, no account
/// locks, and each client's total equals that client's available funds.
pub proof fn lemma_deposit_log_balances(txs: Seq<Transaction>, c: ClientId)
    requires
        forall|i: int| 0 <= i < txs.len() ==> txs[i].transaction_type == TransactionType::Deposit,
    ensures
        deposits_only(ledger_of(replay(txs), c)),
        sum_held(ledger_of(replay(txs), c)) == 0,
        !is_locked(ledger_of(replay(txs), c)),
        sum_available(ledger_of(replay(txs), c)) + sum_held(ledger_of(replay(txs), c))
            == sum_available(ledger_of(replay(txs), c)),
    decreases txs.len(),
{
    if txs.len() > 0 {
        let m = replay(txs.drop_last());
        let tx = txs.last();
        assert(forall|i: int|
            0 <= i < txs.drop_last().len() ==> txs.drop_last()[i].transaction_type
                == TransactionType::Deposit);
        lemma_deposit_log_balances(txs.drop_last(), c);
        lemma_replay_wf(txs.drop_last());
        if c == tx.client {
            lemma_step_ledger_own(m, tx);
            lemma_deposit_keeps_deposits_only(ledger_of(m, c), tx);
        } else {
            lemma_clients_independent(m, tx, c);
        }
    }
    lemma_deposits_only_balances(ledger_of(replay(txs), c));
}

/// A withdrawal against an unlocked account under a fresh transaction
/// identifier succeeds exactly when its amount is positive and no more
/// than the available funds; on success the available funds drop by
/// exactly that amount and the held funds stay as they were.
pub proof fn lemma_withdrawal_exact(l: Ledger, tx: Transaction, a: AmountType)
    requires
        !is_locked(l),
        tx.transaction_type == TransactionType::Withdrawal,
        tx.amount == Option::Some(a),
        !contains_tx(l, tx.transaction_id),
    ensures
        ledger_outcome(l, tx) is Ok <==> (0 < a && a as int <= sum_available(l)),
        ledger_outcome(l, tx) is Ok ==> sum_available(apply_or_keep(l, tx)) == sum_available(l)
            - a as int && sum_held(apply_or_keep(l, tx)) == sum_held(l),
{
    if ledger_outcome(l, tx) is Ok {
        lemma_sums_push(
            l,
            (tx.transaction_id, TransactionRecord {
                amount: neg_amount(a),
                status: TransactionStatus::Processed,
            }),
        );
    }
}

/// A successful dispute moves exactly the disputed amount from the
/// available to the held funds: the total and the lock stay as they
/// were.
pub proof fn lemma_dispute_moves_funds(l: Ledger, tx: Transaction)
    requires
        ledger_wf(l),
        tx.transaction_type == TransactionType::Dispute,
        ledger_outcome(l, tx) is Ok,
    ensures
        ({
            let a = l[tx_index(l, tx.transaction_id)].1.amount as int;
            let l2 = apply_or_keep(l, tx);
            sum_available(l2) == sum_available(l) - a && sum_held(l2) == sum_held(l) + a
                && sum_available(l2) + sum_held(l2) == sum_available(l) + sum_held(l)
                && is_locked(l2) == is_locked(l)
        }),
{
    let i = tx_index(l, tx.transaction_id);
    let e = (tx.transaction_id, TransactionRecord {
        amount: l[i].1.amount,
        status: TransactionStatus::UnderDispute,
    });
    lemma_sums_update(l, i, e);
    lemma_locked_update_noncb(l, i, e);
}

/// A successful resolve reverses a dispute exactly: the disputed amount
/// moves back from held to available, the total and the lock stay.
pub proof fn lemma_resolve_restores_funds(l: Ledger, tx: Transaction)
    requires
        ledger_wf(l),
        tx.transaction_type == TransactionType::Resolve,
        ledger_outcome(l, tx) is Ok,
    ensures
        ({
            let a = l[tx_index(l, tx.transaction_id)].1.amount as int;
            let l2 = apply_or_keep(l, tx);
            sum_available(l2) == sum_available(l) + a && sum_held(l2) == sum_held(l) - a
                && sum_available(l2) + sum_held(l2) == sum_available(l) + sum_held(l)
                && is_locked(l2) == is_locked(l)
        }),
{
    let i = tx_index(l, tx.transaction_id);
    let e = (tx.transaction_id, TransactionRecord {
        amount: l[i].1.amount,
        status: TransactionStatus::Processed,
    });
    lemma_sums_update(l, i, e);
    lemma_locked_update_noncb(l, i, e);
}

/// A successful chargeback removes the disputed amount from the held
/// funds and with it from the total, leaves the available funds as they
/// were, and locks the account.
pub proof fn lemma_chargeback_removes_funds(l: Ledger, tx: Transaction)
    requires
        ledger_wf(l),
        tx.transaction_type == TransactionType::Chargeback,
        ledger_outcome(l, tx) is Ok,
    ensures
        ({
            let a = l[tx_index(l, tx.transaction_id)].1.amount as int;
            let l2 = apply_or_keep(l, tx);
            sum_available(l2) == sum_available(l) && sum_held(l2) == sum_held(l) - a
                && sum_available(l2) + sum_held(l2) == sum_available(l) + sum_held(l) - a
                && is_locked(l2)
        }),
{
    let i = tx_index(l, tx.transaction_id);
    let e = (tx.transaction_id, TransactionRecord {
        amount: l[i].1.amount,
        status: TransactionStatus::ChargeBack,
    });
    lemma_sums_update(l, i, e);
    assert(l.update(i, e)[i].1.status == TransactionStatus::ChargeBack);
}

/// A locked account is inert: every transaction, of any kind, fails
/// with `AccountLocked` and changes nothing — so the lock is permanent.
pub proof fn lemma_locked_account_inert(l: Ledger, tx: Transaction)
    requires
        is_locked(l),
    ensures
        ledger_outcome(l, tx) == Result::Err::<Ledger, TransactionProcessError>(
            TransactionProcessError::AccountLocked,
        ),
        apply_or_keep(l, tx) == l,
{
}

/// Re-using a transaction identifier already recorded for this client
/// fails with `TransactionAlreadyProcessed` and changes nothing, for a
/// deposit and a withdrawal alike, whatever valid amount it names.
pub proof fn lemma_reused_id_rejected(l: Ledger, tx: Transaction, a: AmountType)
    requires
        !is_locked(l),
        tx.transaction_type == TransactionType::Deposit || tx.transaction_type
            == TransactionType::Withdrawal,
        tx.amount == Option::Some(a),
        0 < a,
        tx.transaction_type == TransactionType::Withdrawal ==> a as int <= sum_available(l),
        contains_tx(l, tx.transaction_id),
    ensures
        ledger_outcome(l, tx) == Result::Err::<Ledger, TransactionProcessError>(
            TransactionProcessError::TransactionAlreadyProcessed,
        ),
        apply_or_keep(l, tx) == l,
{
}

/// A withdrawal cannot be disputed: a dispute whose referenced record
/// holds a negative stored amount fails with `CannotDisputeWithdrawal`
/// and changes nothing.
pub proof fn lemma_dispute_withdrawal_rejected(l: Ledger, tx: Transaction)
    requires
        !is_locked(l),
        tx.transaction_type == TransactionType::Dispute,
        contains_tx(l, tx.transaction_id),
        l[tx_index(l, tx.transaction_id)].1.status == TransactionStatus::Processed,
        l[tx_index(l, tx.transaction_id)].1.amount < 0,
    ensures
        ledger_outcome(l, tx) == Result::Err::<Ledger, TransactionProcessError>(
            TransactionProcessError::CannotDisputeWithdrawal,
        ),
        apply_or_keep(l, tx) == l,
{
}

} // verus!
