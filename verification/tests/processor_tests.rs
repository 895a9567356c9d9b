//! The per-transaction behaviour of the engine: guards, errors and the
//! derived summary. Amounts are fixed-point values scaled by 10,000.

use transaction_processor::models::{ClientSummary, Transaction, TransactionType};
use transaction_processor::processor::{TransactionProcessError, TransactionsProcessor};

fn tx(
    transaction_type: TransactionType,
    client: u64,
    transaction_id: u64,
    amount: Option<i64>,
) -> Transaction {
    Transaction { transaction_type, client, transaction_id, amount }
}

#[test]
fn without_transactions_should_return_empty_summary() {
    let processor = TransactionsProcessor::default();
    assert_eq!(processor.summary(), vec![])
}

#[test]
fn deposits_should_increase_total_and_available_values() {
    let mut processor = TransactionsProcessor::default();

    processor
        .process(&tx(TransactionType::Deposit, 1, 1, Some(100_000)))
        .unwrap();
    assert_eq!(
        processor.summary(),
        vec![ClientSummary {
            client: 1,
            available: 100_000,
            held: 0,
            total: 100_000,
            locked: false,
        }]
    );

    processor
        .process(&tx(TransactionType::Deposit, 1, 2, Some(1_231_230)))
        .unwrap();
    assert_eq!(
        processor.summary(),
        vec![ClientSummary {
            client: 1,
            available: 1_331_230,
            held: 0,
            total: 1_331_230,
            locked: false,
        }]
    );
}

#[test]
fn deposit_non_positive_value_should_fail() {
    let mut processor = TransactionsProcessor::default();
    let err = processor
        .process(&tx(TransactionType::Deposit, 1, 1, Some(-100_000)))
        .unwrap_err();
    assert_eq!(err, TransactionProcessError::NonPositiveAmountInTransaction);
    assert_eq!(
        processor.summary(),
        vec![ClientSummary { client: 1, available: 0, held: 0, total: 0, locked: false }]
    );
}

#[test]
fn deposit_the_same_transaction_twice_should_fail() {
    let mut processor = TransactionsProcessor::default();
    processor
        .process(&tx(TransactionType::Deposit, 1, 1, Some(100_000)))
        .unwrap();
    let err = processor
        .process(&tx(TransactionType::Deposit, 1, 1, Some(100_000)))
        .unwrap_err();
    assert_eq!(err, TransactionProcessError::TransactionAlreadyProcessed);
    assert_eq!(
        processor.summary(),
        vec![ClientSummary {
            client: 1,
            available: 100_000,
            held: 0,
            total: 100_000,
            locked: false,
        }]
    );
}

#[test]
fn deposit_without_amount_should_fail() {
    let mut processor = TransactionsProcessor::default();
    let err = processor
        .process(&tx(TransactionType::Deposit, 1, 1, None))
        .unwrap_err();
    assert_eq!(err, TransactionProcessError::MissingAmountValue);
    assert_eq!(
        processor.summary(),
        vec![ClientSummary { client: 1, available: 0, held: 0, total: 0, locked: false }]
    );
}

#[test]
fn transactions_should_work_independently_for_users() {
    let mut processor = TransactionsProcessor::default();

    processor
        .process(&tx(TransactionType::Deposit, 1, 1, Some(230_000)))
        .unwrap();
    processor
        .process(&tx(TransactionType::Deposit, 6, 2, Some(1_231_230)))
        .unwrap();

    assert_eq!(
        processor.summary(),
        vec![
            ClientSummary {
                client: 1,
                available: 230_000,
                held: 0,
                total: 230_000,
                locked: false,
            },
            ClientSummary {
                client: 6,
                available: 1_231_230,
                held: 0,
                total: 1_231_230,
                locked: false,
            },
        ]
    );
}

#[test]
fn transaction_ids_are_scoped_per_client() {
    // Two clients may use the same transaction identifier, and a
    // dispute looks the identifier up only in the ledger of the client
    // it names.
    let mut processor = TransactionsProcessor::default();
    processor
        .process(&tx(TransactionType::Deposit, 1, 1, Some(100_000)))
        .unwrap();
    processor
        .process(&tx(TransactionType::Deposit, 6, 1, Some(200_000)))
        .unwrap();
    let err = processor
        .process(&tx(TransactionType::Dispute, 2, 1, None))
        .unwrap_err();
    assert_eq!(err, TransactionProcessError::TransactionNotFound);
    processor
        .process(&tx(TransactionType::Dispute, 6, 1, None))
        .unwrap();
    assert_eq!(
        processor.summary(),
        vec![
            ClientSummary {
                client: 1,
                available: 100_000,
                held: 0,
                total: 100_000,
                locked: false,
            },
            ClientSummary { client: 2, available: 0, held: 0, total: 0, locked: false },
            ClientSummary {
                client: 6,
                available: 0,
                held: 200_000,
                total: 200_000,
                locked: false,
            },
        ]
    );
}

#[test]
fn withdrawal_should_decrease_total_and_available_values() {
    let mut processor = TransactionsProcessor::default();

    processor
        .process(&tx(TransactionType::Deposit, 1, 1, Some(1_000_000)))
        .unwrap();
    processor
        .process(&tx(TransactionType::Withdrawal, 1, 2, Some(250_000)))
        .unwrap();

    assert_eq!(
        processor.summary(),
        vec![ClientSummary {
            client: 1,
            available: 750_000,
            held: 0,
            total: 750_000,
            locked: false,
        }]
    );

    processor
        .process(&tx(TransactionType::Withdrawal, 1, 3, Some(750_000)))
        .unwrap();

    assert_eq!(
        processor.summary(),
        vec![ClientSummary { client: 1, available: 0, held: 0, total: 0, locked: false }]
    );
}

#[test]
fn withdrawal_should_fail_and_not_decrease_total_and_available_values_if_it_would_fall_below_0() {
    let mut processor = TransactionsProcessor::default();

    let err = processor
        .process(&tx(TransactionType::Withdrawal, 1, 2, Some(250_000)))
        .unwrap_err();
    assert_eq!(err, TransactionProcessError::NotEnoughFoundsAvailable);

    assert_eq!(
        processor.summary(),
        vec![ClientSummary { client: 1, available: 0, held: 0, total: 0, locked: false }]
    );

    processor
        .process(&tx(TransactionType::Deposit, 1, 2, Some(200_000)))
        .unwrap();

    let err = processor
        .process(&tx(TransactionType::Withdrawal, 1, 3, Some(200_001)))
        .unwrap_err();
    assert_eq!(err, TransactionProcessError::NotEnoughFoundsAvailable);

    assert_eq!(
        processor.summary(),
        vec![ClientSummary {
            client: 1,
            available: 200_000,
            held: 0,
            total: 200_000,
            locked: false,
        }]
    );
}

#[test]
fn withdrawal_non_positive_value_should_fail() {
    let mut processor = TransactionsProcessor::default();
    processor
        .process(&tx(TransactionType::Deposit, 1, 1, Some(1_000_000)))
        .unwrap();
    let err = processor
        .process(&tx(TransactionType::Withdrawal, 1, 1, Some(-100_000)))
        .unwrap_err();
    assert_eq!(err, TransactionProcessError::NonPositiveAmountInTransaction);
    assert_eq!(
        processor.summary(),
        vec![ClientSummary {
            client: 1,
            available: 1_000_000,
            held: 0,
            total: 1_000_000,
            locked: false,
        }]
    );
}

#[test]
fn withdrawal_without_amount_should_fail() {
    let mut processor = TransactionsProcessor::default();
    processor
        .process(&tx(TransactionType::Deposit, 1, 1, Some(1_000_000)))
        .unwrap();
    let err = processor
        .process(&tx(TransactionType::Withdrawal, 1, 1, None))
        .unwrap_err();
    assert_eq!(err, TransactionProcessError::MissingAmountValue);
    assert_eq!(
        processor.summary(),
        vec![ClientSummary {
            client: 1,
            available: 1_000_000,
            held: 0,
            total: 1_000_000,
            locked: false,
        }]
    );
}

#[test]
fn withdrawal_the_same_transaction_twice_should_fail() {
    let mut processor = TransactionsProcessor::default();
    processor
        .process(&tx(TransactionType::Deposit, 1, 1, Some(100_000)))
        .unwrap();
    processor
        .process(&tx(TransactionType::Withdrawal, 1, 2, Some(50_000)))
        .unwrap();
    let err = processor
        .process(&tx(TransactionType::Withdrawal, 1, 2, Some(50_000)))
        .unwrap_err();
    assert_eq!(err, TransactionProcessError::TransactionAlreadyProcessed);
    assert_eq!(
        processor.summary(),
        vec![ClientSummary {
            client: 1,
            available: 50_000,
            held: 0,
            total: 50_000,
            locked: false,
        }]
    );
}

#[test]
fn dispute_should_fail_if_there_is_no_related_transaction() {
    let mut processor = TransactionsProcessor::default();

    let err = processor
        .process(&tx(TransactionType::Dispute, 1, 2, None))
        .unwrap_err();
    assert_eq!(err, TransactionProcessError::TransactionNotFound);

    assert_eq!(
        processor.summary(),
        vec![ClientSummary { client: 1, available: 0, held: 0, total: 0, locked: false }]
    );
}

#[test]
fn dispute_should_fail_if_related_transaction_is_withdrawal() {
    let mut processor = TransactionsProcessor::default();
    processor
        .process(&tx(TransactionType::Deposit, 1, 1, Some(1_000_000)))
        .unwrap();
    processor
        .process(&tx(TransactionType::Withdrawal, 1, 2, Some(200_000)))
        .unwrap();

    let err = processor
        .process(&tx(TransactionType::Dispute, 1, 2, None))
        .unwrap_err();
    assert_eq!(err, TransactionProcessError::CannotDisputeWithdrawal);
    assert_eq!(
        processor.summary(),
        vec![ClientSummary {
            client: 1,
            available: 800_000,
            held: 0,
            total: 800_000,
            locked: false,
        }]
    );
}

#[test]
fn dispute_should_fail_if_related_transaction_is_already_under_dispute() {
    let mut processor = TransactionsProcessor::default();
    processor
        .process(&tx(TransactionType::Deposit, 1, 1, Some(1_000_000)))
        .unwrap();
    processor
        .process(&tx(TransactionType::Dispute, 1, 1, None))
        .unwrap();

    let err = processor
        .process(&tx(TransactionType::Dispute, 1, 1, None))
        .unwrap_err();
    assert_eq!(err, TransactionProcessError::TransactionAlreadyUnderDispute);
    assert_eq!(
        processor.summary(),
        vec![ClientSummary {
            client: 1,
            available: 0,
            held: 1_000_000,
            total: 1_000_000,
            locked: false,
        }]
    );
}

#[test]
fn dispute_should_increase_the_held_amount_and_reduce_available() {
    let mut processor = TransactionsProcessor::default();
    processor
        .process(&tx(TransactionType::Deposit, 1, 1, Some(1_000_000)))
        .unwrap();
    processor
        .process(&tx(TransactionType::Deposit, 1, 2, Some(300_000)))
        .unwrap();
    processor
        .process(&tx(TransactionType::Dispute, 1, 2, None))
        .unwrap();
    assert_eq!(
        processor.summary(),
        vec![ClientSummary {
            client: 1,
            available: 1_000_000,
            held: 300_000,
            total: 1_300_000,
            locked: false,
        }]
    );
}

#[test]
fn resolve_should_fail_if_there_is_no_related_transaction() {
    let mut processor = TransactionsProcessor::default();

    let err = processor
        .process(&tx(TransactionType::Resolve, 1, 2, None))
        .unwrap_err();
    assert_eq!(err, TransactionProcessError::TransactionNotFound);

    assert_eq!(
        processor.summary(),
        vec![ClientSummary { client: 1, available: 0, held: 0, total: 0, locked: false }]
    );
}

#[test]
fn resolve_should_fail_if_transaction_is_not_under_dispute() {
    let mut processor = TransactionsProcessor::default();
    processor
        .process(&tx(TransactionType::Deposit, 1, 1, Some(1_000_000)))
        .unwrap();

    let err = processor
        .process(&tx(TransactionType::Resolve, 1, 1, None))
        .unwrap_err();
    assert_eq!(err, TransactionProcessError::TransactionNotUnderDispute);

    assert_eq!(
        processor.summary(),
        vec![ClientSummary {
            client: 1,
            available: 1_000_000,
            held: 0,
            total: 1_000_000,
            locked: false,
        }]
    );
}

#[test]
fn resolve_should_revert_the_given_dispute() {
    // Creates two deposits, disputes both, resolves only one.
    let mut processor = TransactionsProcessor::default();
    processor
        .process(&tx(TransactionType::Deposit, 1, 1, Some(1_000_000)))
        .unwrap();
    processor
        .process(&tx(TransactionType::Deposit, 1, 2, Some(300_000)))
        .unwrap();
    processor
        .process(&tx(TransactionType::Dispute, 1, 1, None))
        .unwrap();
    processor
        .process(&tx(TransactionType::Dispute, 1, 2, None))
        .unwrap();
    processor
        .process(&tx(TransactionType::Resolve, 1, 2, None))
        .unwrap();

    assert_eq!(
        processor.summary(),
        vec![ClientSummary {
            client: 1,
            available: 300_000,
            held: 1_000_000,
            total: 1_300_000,
            locked: false,
        }]
    );
}

#[test]
fn chargeback_should_revert_the_given_deposit_under_despute() {
    // Creates two deposits, disputes both, charges back the second one.
    let mut processor = TransactionsProcessor::default();
    processor
        .process(&tx(TransactionType::Deposit, 1, 1, Some(1_000_000)))
        .unwrap();
    processor
        .process(&tx(TransactionType::Deposit, 1, 2, Some(300_000)))
        .unwrap();
    processor
        .process(&tx(TransactionType::Dispute, 1, 1, None))
        .unwrap();
    processor
        .process(&tx(TransactionType::Dispute, 1, 2, None))
        .unwrap();
    processor
        .process(&tx(TransactionType::Chargeback, 1, 2, None))
        .unwrap();

    assert_eq!(
        processor.summary(),
        vec![ClientSummary {
            client: 1,
            available: 0,
            held: 1_000_000,
            total: 1_000_000,
            locked: true,
        }]
    );
}

#[test]
fn after_chargeback_no_transaction_should_be_processed() {
    // A deposit is disputed and charged back; every later transaction
    // for the same client fails with the same error.
    let mut processor = TransactionsProcessor::default();
    processor
        .process(&tx(TransactionType::Deposit, 1, 1, Some(1_000_000)))
        .unwrap();
    processor
        .process(&tx(TransactionType::Dispute, 1, 1, None))
        .unwrap();
    processor
        .process(&tx(TransactionType::Chargeback, 1, 1, None))
        .unwrap();

    let err = processor
        .process(&tx(TransactionType::Deposit, 1, 5, Some(1_000_000)))
        .unwrap_err();
    assert_eq!(err, TransactionProcessError::AccountLocked);

    let err = processor
        .process(&tx(TransactionType::Withdrawal, 1, 3, Some(1_000_000)))
        .unwrap_err();
    assert_eq!(err, TransactionProcessError::AccountLocked);

    let err = processor
        .process(&tx(TransactionType::Dispute, 1, 1, None))
        .unwrap_err();
    assert_eq!(err, TransactionProcessError::AccountLocked);

    assert_eq!(
        processor.summary(),
        vec![ClientSummary { client: 1, available: 0, held: 0, total: 0, locked: true }]
    );
}

#[test]
fn chargeback_should_fail_if_there_is_no_related_transaction() {
    let mut processor = TransactionsProcessor::default();

    let err = processor
        .process(&tx(TransactionType::Chargeback, 1, 2, None))
        .unwrap_err();
    assert_eq!(err, TransactionProcessError::TransactionNotFound);

    assert_eq!(
        processor.summary(),
        vec![ClientSummary { client: 1, available: 0, held: 0, total: 0, locked: false }]
    );
}

#[test]
fn chargeback_should_fail_if_transaction_is_not_under_dispute() {
    let mut processor = TransactionsProcessor::default();
    processor
        .process(&tx(TransactionType::Deposit, 1, 1, Some(1_000_000)))
        .unwrap();

    let err = processor
        .process(&tx(TransactionType::Chargeback, 1, 1, None))
        .unwrap_err();
    assert_eq!(err, TransactionProcessError::TransactionNotUnderDispute);

    assert_eq!(
        processor.summary(),
        vec![ClientSummary {
            client: 1,
            available: 1_000_000,
            held: 0,
            total: 1_000_000,
            locked: false,
        }]
    );
}
