//! A batch ledger replay engine: applies a log of financial transactions
//! (deposit, withdrawal, dispute, resolve, chargeback) to client accounts
//! and derives a final per-client summary of available, held and total
//! funds together with a frozen/locked flag.
//!
//! Monetary values are fixed-point integers: the decimal amount scaled by
//! 10,000, so four decimal digits are carried exactly and repeated
//! additions cannot drift. Conversion from and to the external decimal
//! form belongs to the caller.

pub mod laws;
pub mod models;
pub mod output;
pub mod processor;

use vstd::prelude::*;

use crate::models::Transaction;
use crate::output::{into_csv, lemma_render_matches, render_accounts};
use crate::processor::{replay, TransactionsProcessor};

verus! {

/// Replays a whole transaction log in order against an engine that
/// starts with no known clients, dropping every rejected transaction,
/// and renders the resulting account summaries as CSV text. This is the
/// computational core of a run: reading the log and emitting the text
/// belong to the caller.
pub fn process_transactions(transactions: &Vec<Transaction>) -> (r: String)
    ensures
        r@ == render_accounts(replay(transactions@)),
{
    let mut processor = TransactionsProcessor::default();
    let n = transactions.len();
    let mut i: usize = 0;
    while i < n
        invariant
            n == transactions@.len(),
            i <= n,
            processor.wf(),
            processor@ == replay(transactions@.take(i as int)),
        decreases n - i,
    {
        let transaction = transactions[i];
        let _ = processor.process(&transaction);
        proof {
            assert(transactions@.take(i as int + 1).drop_last() =~= transactions@.take(i as int));
            assert(transactions@.take(i as int + 1).last() == transactions@[i as int]);
        }
        i += 1;
    }
    proof {
        assert(transactions@.take(n as int) =~= transactions@);
    }
    let summaries = processor.summary();
    proof {
        lemma_render_matches(summaries@, processor@);
    }
    into_csv(summaries)
}

} // verus!
