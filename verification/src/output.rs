//! Rendering of the final account summaries as CSV text.
//!
//! Fixed-point amounts are rendered as decimals in their minimal form:
//! no trailing zeros in the fraction, but always at least one fractional
//! digit, so a whole amount reads `130.0` and a scaled `1231230` reads
//! `123.123`.

use vstd::prelude::*;
use vstd::string::StringExecFns;

use crate::models::{ClientId, ClientSummary};
use crate::processor::{
    is_locked, sum_available, sum_held, summary_matches, Accounts, Ledger,
};

verus! {

/// The single character a decimal digit renders as.
pub open spec fn digit_str(d: int) -> Seq<char> {
    if d == 0 {
        "0"@
    } else if d == 1 {
        "1"@
    } else if d == 2 {
        "2"@
    } else if d == 3 {
        "3"@
    } else if d == 4 {
        "4"@
    } else if d == 5 {
        "5"@
    } else if d == 6 {
        "6"@
    } else if d == 7 {
        "7"@
    } else if d == 8 {
        "8"@
    } else {
        "9"@
    }
}

/// The ordinary decimal rendering of a natural number.
pub open spec fn dec_str(n: nat) -> Seq<char>
    decreases n,
{
    if n < 10 {
        digit_str(n as int)
    } else {
        dec_str(n / 10) + digit_str((n % 10) as int)
    }
}

/// The last `w` decimal digits of `f`, zero-padded to width `w`.
pub open spec fn pad_digits(f: nat, w: nat) -> Seq<char>
    decreases w,
{
    if w == 0 {
        Seq::empty()
    } else {
        pad_digits(f / 10, (w - 1) as nat) + digit_str((f % 10) as int)
    }
}

/// The fraction `f` of width `w`, with trailing zeros dropped but at
/// least one digit kept.
pub open spec fn frac_str(f: nat, w: nat) -> Seq<char>
    decreases w,
{
    if w <= 1 {
        digit_str((f % 10) as int)
    } else if f % 10 == 0 {
        frac_str(f / 10, (w - 1) as nat)
    } else {
        pad_digits(f, w)
    }
}

/// A non-negative fixed-point value as a decimal: units, a point, and
/// the minimal four-place fraction.
pub open spec fn render_magnitude(n: nat) -> Seq<char> {
    dec_str(n / 10000) + "."@ + frac_str(n % 10000, 4)
}

/// A fixed-point value as a decimal, with its sign.
pub open spec fn render_amount(v: int) -> Seq<char> {
    if v < 0 {
        "-"@ + render_magnitude((-v) as nat)
    } else {
        render_magnitude(v as nat)
    }
}

/// The literal rendering of the locked flag.
pub open spec fn render_bool(b: bool) -> Seq<char> {
    if b {
        "true"@
    } else {
        "false"@
    }
}

/// The header row, always present and always first.
pub open spec fn csv_header() -> Seq<char> {
    "client,available,held,total,locked"@
}

/// One data row of the summary.
pub open spec fn render_summary_row(s: ClientSummary) -> Seq<char> {
    dec_str(s.client as nat) + ","@ + render_amount(s.available as int) + ","@ + render_amount(
        s.held as int,
    ) + ","@ + render_amount(s.total as int) + ","@ + render_bool(s.locked) + "\n"@
}

/// All data rows, in the order of the snapshots.
pub open spec fn render_summary_rows(v: Seq<ClientSummary>) -> Seq<char>
    decreases v.len(),
{
    if v.len() == 0 {
        Seq::empty()
    } else {
        render_summary_rows(v.drop_last()) + render_summary_row(v.last())
    }
}

/// The whole document: with no clients exactly the header and nothing
/// more, otherwise the header line followed by one row per client.
pub open spec fn render_summaries(v: Seq<ClientSummary>) -> Seq<char> {
    if v.len() == 0 {
        csv_header()
    } else {
        csv_header() + "\n"@ + render_summary_rows(v)
    }
}

/// One data row, derived straight from a client's ledger in the model.
pub open spec fn render_account_row(e: (ClientId, Ledger)) -> Seq<char> {
    dec_str(e.0 as nat) + ","@ + render_amount(sum_available(e.1)) + ","@ + render_amount(
        sum_held(e.1),
    ) + ","@ + render_amount(sum_available(e.1) + sum_held(e.1)) + ","@ + render_bool(
        is_locked(e.1),
    ) + "\n"@
}

/// All data rows, derived straight from the model.
pub open spec fn render_account_rows(m: Accounts) -> Seq<char>
    decreases m.len(),
{
    if m.len() == 0 {
        Seq::empty()
    } else {
        render_account_rows(m.drop_last()) + render_account_row(m.last())
    }
}

/// The whole document, derived straight from the model.
pub open spec fn render_accounts(m: Accounts) -> Seq<char> {
    if m.len() == 0 {
        csv_header()
    } else {
        csv_header() + "\n"@ + render_account_rows(m)
    }
}

/// Snapshots that agree with the model render to the same rows.
pub proof fn lemma_rows_match(v: Seq<ClientSummary>, m: Accounts)
    requires
        v.len() == m.len(),
        forall|i: int| 0 <= i < v.len() ==> summary_matches(v[i], m[i]),
    ensures
        render_summary_rows(v) == render_account_rows(m),
    decreases v.len(),
{
    if v.len() > 0 {
        assert(forall|i: int|
            0 <= i < v.len() - 1 ==> summary_matches(v.drop_last()[i], m.drop_last()[i]));
        lemma_rows_match(v.drop_last(), m.drop_last());
        assert(summary_matches(v.last(), m.last()));
        assert(render_summary_row(v.last()) == render_account_row(m.last()));
    }
}

/// Snapshots that agree with the model render to the same document.
pub proof fn lemma_render_matches(v: Seq<ClientSummary>, m: Accounts)
    requires
        v.len() == m.len(),
        forall|i: int| 0 <= i < v.len() ==> summary_matches(v[i], m[i]),
    ensures
        render_summaries(v) == render_accounts(m),
{
    if v.len() > 0 {
        lemma_rows_match(v, m);
    }
}

/// Appends one decimal digit.
fn append_digit(out: &mut String, d: u128)
    requires
        d < 10,
    ensures
        final(out)@ == old(out)@ + digit_str(d as int),
{
    if d == 0 {
        out.append("0");
    } else if d == 1 {
        out.append("1");
    } else if d == 2 {
        out.append("2");
    } else if d == 3 {
        out.append("3");
    } else if d == 4 {
        out.append("4");
    } else if d == 5 {
        out.append("5");
    } else if d == 6 {
        out.append("6");
    } else if d == 7 {
        out.append("7");
    } else if d == 8 {
        out.append("8");
    } else {
        out.append("9");
    }
}

/// Appends the decimal rendering of a natural number.
fn append_dec(out: &mut String, n: u128)
    ensures
        final(out)@ == old(out)@ + dec_str(n as nat),
    decreases n,
{
    if n < 10 {
        append_digit(out, n);
    } else {
        append_dec(out, n / 10);
        append_digit(out, n % 10);
        proof {
            assert(out@ =~= old(out)@ + dec_str(n as nat));
        }
    }
}

/// Appends the last `w` digits of `f`, zero-padded.
fn append_pad(out: &mut String, f: u128, w: usize)
    ensures
        final(out)@ == old(out)@ + pad_digits(f as nat, w as nat),
    decreases w,
{
    if w == 0 {
        proof {
            assert(old(out)@ + pad_digits(f as nat, 0) =~= old(out)@);
        }
    } else {
        append_pad(out, f / 10, w - 1);
        append_digit(out, f % 10);
        proof {
            assert(out@ =~= old(out)@ + pad_digits(f as nat, w as nat));
        }
    }
}

/// Appends the minimal fraction of `f` at width `w`.
fn append_frac(out: &mut String, f: u128, w: usize)
    ensures
        final(out)@ == old(out)@ + frac_str(f as nat, w as nat),
    decreases w,
{
    if w <= 1 {
        append_digit(out, f % 10);
    } else if f % 10 == 0 {
        append_frac(out, f / 10, w - 1);
    } else {
        append_pad(out, f, w);
    }
}

/// Appends the decimal rendering of a fixed-point amount.
fn append_amount(out: &mut String, v: i128)
    ensures
        final(out)@ == old(out)@ + render_amount(v as int),
{
    let mag: u128;
    if v < 0 {
        out.append("-");
        mag = ((-1 - v) as u128) + 1;
    } else {
        mag = v as u128;
    }
    append_dec(out, mag / 10000);
    out.append(".");
    append_frac(out, mag % 10000, 4);
    proof {
        assert(out@ =~= old(out)@ + render_amount(v as int));
    }
}

/// The decimal rendering of one fixed-point amount, on its own.
pub fn format_amount(v: i128) -> (r: String)
    ensures
        r@ == render_amount(v as int),
{
    let mut out = String::new();
    append_amount(&mut out, v);
    proof {
        assert(out@ =~= render_amount(v as int));
    }
    out
}

/// Appends one data row of the summary.
fn append_row(out: &mut String, s: ClientSummary)
    ensures
        final(out)@ == old(out)@ + render_summary_row(s),
{
    append_dec(out, s.client as u128);
    out.append(",");
    append_amount(out, s.available);
    out.append(",");
    append_amount(out, s.held);
    out.append(",");
    append_amount(out, s.total);
    out.append(",");
    if s.locked {
        out.append("true");
    } else {
        out.append("false");
    }
    out.append("\n");
    proof {
        assert(out@ =~= old(out)@ + render_summary_row(s));
    }
}

/// Renders the snapshots as the CSV document: the header always, then
/// one row per snapshot; with no snapshots the header alone, without a
/// trailing line break.
pub fn into_csv(all_summaries: Vec<ClientSummary>) -> (r: String)
    ensures
        r@ == render_summaries(all_summaries@),
{
    let mut out = String::new();
    out.append("client,available,held,total,locked");
    if all_summaries.len() == 0 {
        proof {
            assert(out@ =~= render_summaries(all_summaries@));
        }
        return out;
    }
    out.append("\n");
    let n = all_summaries.len();
    let mut i: usize = 0;
    while i < n
        invariant
            n == all_summaries@.len(),
            n > 0,
            i <= n,
            out@ == csv_header() + "\n"@ + render_summary_rows(all_summaries@.take(i as int)),
        decreases n - i,
    {
        append_row(&mut out, all_summaries[i]);
        proof {
            assert(all_summaries@.take(i as int + 1).drop_last() =~= all_summaries@.take(
                i as int,
            ));
            assert(all_summaries@.take(i as int + 1).last() == all_summaries@[i as int]);
            assert(out@ =~= csv_header() + "\n"@ + render_summary_rows(
                all_summaries@.take(i as int + 1),
            ));
        }
        i += 1;
    }
    proof {
        assert(all_summaries@.take(n as int) =~= all_summaries@);
    }
    out
}

} // verus!
