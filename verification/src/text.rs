//! The textual report of a histogram: what it says, as a function of the
//! snapshot, and the code that writes it.

use crate::model::{copies, lemma_copies, listing, total, Entry, Row};
use crate::snapshot::{is_snapshot, lemma_snapshot_is, snapshot};
use vstd::prelude::*;
use vstd::string::*;

verus! {

/// The text of a single decimal digit.
pub open spec fn digit_text(d: nat) -> Seq<char> {
    if d == 0 {
        "0"@
    } else if d == 1 {
        "1"@
    } else if d == 2 {
        "2"@
    } else if d == 3 {
        "3"@
    } else if d == 4 {
        "4"@
    } else if d == 5 {
        "5"@
    } else if d == 6 {
        "6"@
    } else if d == 7 {
        "7"@
    } else if d == 8 {
        "8"@
    } else {
        "9"@
    }
}

/// A number in decimal notation, without sign, padding or leading zeros.
pub open spec fn decimal(n: nat) -> Seq<char>
    decreases n,
{
    if n < 10 {
        digit_text(n)
    } else {
        decimal(n / 10) + digit_text(n % 10)
    }
}

/// How the summary names a key: `Some(<distance>)` for a measured distance
/// and `None` for the sentinel.
pub open spec fn key_text(k: Option<u64>) -> Seq<char> {
    match k {
        Some(d) => "Some("@ + decimal(d as nat) + ")"@,
        None => "None"@,
    }
}

/// The rows of a listing: its entries that carry a distance, in order. In a
/// snapshot these are all entries but that of the sentinel.
pub open spec fn measured(s: Seq<Entry>) -> Seq<Row>
    decreases s.len(),
{
    if s.len() == 0 {
        Seq::empty()
    } else {
        match s.last().0 {
            Some(d) => measured(s.drop_last()).push((d, s.last().1)),
            None => measured(s.drop_last()),
        }
    }
}

/// One line of the table: distance, comma, space, count, newline.
pub open spec fn row_text(r: Row) -> Seq<char> {
    decimal(r.0 as nat) + ", "@ + decimal(r.1 as nat) + "\n"@
}

/// The lines of the table, one for each row.
pub open spec fn table(rows: Seq<Row>) -> Seq<char>
    decreases rows.len(),
{
    if rows.len() == 0 {
        Seq::empty()
    } else {
        table(rows.drop_last()) + row_text(rows.last())
    }
}

/// The line that reports the sentinel's count. It is there only if the last
/// entry is the sentinel's.
pub open spec fn first_accesses(s: Seq<Entry>) -> Seq<char> {
    if s.len() > 0 && s.last().0 is None {
        "\t("@ + decimal(s.last().1 as nat) + " first accesses)\n"@
    } else {
        Seq::empty()
    }
}

/// The block above the table: the number of entries, the first and the last
/// key, the sum of all counts, and the sentinel's line. A listing without
/// entries has no such block.
pub open spec fn summary(s: Seq<Entry>) -> Seq<char> {
    if s.len() == 0 {
        Seq::empty()
    } else {
        "Reuse distance histogram:\n\t"@ + decimal(s.len()) + " distance value(s), min "@
            + key_text(s.first().0) + ", max "@ + key_text(s.last().0) + "\n\t"@ + decimal(
            total(s),
        ) + " accesses\n"@ + first_accesses(s)
    }
}

/// The whole report of a snapshot: the summary, the table's heading, and the
/// table of measured distances.
pub open spec fn report(s: Seq<Entry>) -> Seq<char> {
    summary(s) + "value, count\n"@ + table(measured(s))
}

/// The sum of the counts of `rows`.
pub open spec fn row_total(rows: Seq<Row>) -> nat
    decreases rows.len(),
{
    if rows.len() == 0 {
        0
    } else {
        row_total(rows.drop_last()) + rows.last().1 as nat
    }
}

/// What `listing` puts together from rows and the sentinel's count, taken
/// apart again.
pub proof fn lemma_listing_parts(rows: Seq<Row>, first: usize)
    ensures
        listing(rows, first).len() == rows.len() + if first > 0 { 1int } else { 0 },
        measured(listing(rows, first)) == rows,
        total(listing(rows, first)) == row_total(rows) + first,
    decreases rows.len(),
{
    let s = listing(rows, first);
    let plain = listing(rows, 0);
    assert(measured(plain) == rows && total(plain) == row_total(rows)) by {
        if rows.len() > 0 {
            lemma_listing_parts(rows.drop_last(), 0);
            assert(plain.drop_last() =~= listing(rows.drop_last(), 0));
            assert(measured(plain) =~= rows);
        } else {
            assert(measured(plain) =~= rows);
        }
    }
    if first > 0 {
        assert(s.drop_last() =~= plain);
    }
}

/// The report of a histogram without measured distances. If nothing was
/// recorded at all it is the table's heading alone. If the sentinel was
/// recorded `n` > 0 times, the summary counts one entry, names the sentinel
/// as both the first and the last key, and gives `n` as the sum and as the
/// number of first accesses; the table has its heading and no line.
pub proof fn lemma_report_without_distances(n: usize)
    ensures
        snapshot(copies(None, n as nat)) == listing(Seq::<Row>::empty(), n),
        n == 0 ==> report(snapshot(copies(None, n as nat))) == "value, count\n"@,
        n > 0 ==> report(snapshot(copies(None, n as nat)))
            == "Reuse distance histogram:\n\t"@ + decimal(1) + " distance value(s), min "@
            + "None"@ + ", max "@ + "None"@ + "\n\t"@ + decimal(n as nat) + " accesses\n"@
            + "\t("@ + decimal(n as nat) + " first accesses)\n"@ + "value, count\n"@,
{
    let s = listing(Seq::<Row>::empty(), n);
    let b = copies(None, n as nat);
    lemma_copies(None, n as nat);
    if n > 0 {
        assert(s[0] == (None::<u64>, n));
    }
    assert(is_snapshot(s, b));
    lemma_snapshot_is(s, b);
    lemma_listing_parts(Seq::<Row>::empty(), n);
    assert(table(Seq::<Row>::empty()) =~= Seq::<char>::empty());
    if n == 0 {
        assert(report(s) =~= "value, count\n"@);
    } else {
        assert(report(s) =~= "Reuse distance histogram:\n\t"@ + decimal(1)
            + " distance value(s), min "@ + "None"@ + ", max "@ + "None"@ + "\n\t"@ + decimal(
            n as nat,
        ) + " accesses\n"@ + "\t("@ + decimal(n as nat) + " first accesses)\n"@
            + "value, count\n"@);
    }
}

/// The text of the digit `d`.
fn digit_str(d: u8) -> (t: &'static str)
    requires
        d < 10,
    ensures
        t@ == digit_text(d as nat),
{
    if d == 0 {
        "0"
    } else if d == 1 {
        "1"
    } else if d == 2 {
        "2"
    } else if d == 3 {
        "3"
    } else if d == 4 {
        "4"
    } else if d == 5 {
        "5"
    } else if d == 6 {
        "6"
    } else if d == 7 {
        "7"
    } else if d == 8 {
        "8"
    } else {
        "9"
    }
}

/// Appends `n` in decimal notation.
fn push_decimal(out: &mut String, n: u128)
    ensures
        final(out)@ == old(out)@ + decimal(n as nat),
    decreases n,
{
    if n >= 10 {
        push_decimal(out, n / 10);
    }
    let d: u8 = (n % 10) as u8;
    out.append(digit_str(d));
}

/// Appends the name of a key as the summary gives it.
fn push_key(out: &mut String, k: Option<u64>)
    ensures
        final(out)@ == old(out)@ + key_text(k),
{
    match k {
        Some(d) => {
            out.append("Some(");
            push_decimal(out, d as u128);
            out.append(")");
        },
        None => {
            out.append("None");
        },
    }
}

/// Appends the table's line for one row.
fn push_row(out: &mut String, r: Row)
    ensures
        final(out)@ == old(out)@ + row_text(r),
{
    push_decimal(out, r.0 as u128);
    out.append(", ");
    push_decimal(out, r.1 as u128);
    out.append("\n");
}

/// Adds up the counts of `rows`. The sum of at most `usize::MAX` counts of
/// at most `usize::MAX` each always fits 128 bits.
fn sum_rows(rows: &Vec<Row>) -> (sum: u128)
    ensures
        sum == row_total(rows@),
        sum <= rows.len() * usize::MAX,
{
    let mut sum: u128 = 0;
    let mut i: usize = 0;
    while i < rows.len()
        invariant
            i <= rows.len(),
            sum == row_total(rows@.take(i as int)),
            sum <= i * usize::MAX,
        decreases rows.len() - i,
    {
        proof {
            assert(rows@.take(i + 1).drop_last() =~= rows@.take(i as int));
            assert((i + 1) * usize::MAX == i * usize::MAX + usize::MAX) by (nonlinear_arith);
            assert(i * usize::MAX <= 0xffff_ffff_ffff_ffff * 0xffff_ffff_ffff_ffff)
                by (nonlinear_arith)
                requires
                    i <= 0xffff_ffff_ffff_ffff,
                    usize::MAX <= 0xffff_ffff_ffff_ffff,
            ;
        }
        sum = sum + rows[i].1 as u128;
        i = i + 1;
    }
    proof {
        assert(rows@.take(i as int) =~= rows@);
    }
    sum
}

/// Writes the report of the histogram whose measured distances are `rows`,
/// in the order in which they are to appear, and whose sentinel was recorded
/// `first` times.
pub fn write_report(rows: &Vec<Row>, first: usize) -> (out: String)
    ensures
        out@ == report(listing(rows@, first)),
{
    let ghost s = listing(rows@, first);
    proof {
        lemma_listing_parts(rows@, first);
    }
    let mut out = String::new();
    let n: usize = rows.len();
    if n > 0 || first > 0 {
        let entries: u128 = if first > 0 {
            n as u128 + 1
        } else {
            n as u128
        };
        let min: Option<u64> = if n > 0 {
            Some(rows[0].0)
        } else {
            None
        };
        let max: Option<u64> = if first > 0 {
            None
        } else {
            Some(rows[n - 1].0)
        };
        let counts: u128 = sum_rows(rows);
        proof {
            assert(n * usize::MAX <= 0xffff_ffff_ffff_ffff * 0xffff_ffff_ffff_ffff)
                by (nonlinear_arith)
                requires
                    n <= 0xffff_ffff_ffff_ffff,
                    usize::MAX <= 0xffff_ffff_ffff_ffff,
            ;
        }
        out.append("Reuse distance histogram:\n\t");
        push_decimal(&mut out, entries);
        out.append(" distance value(s), min ");
        push_key(&mut out, min);
        out.append(", max ");
        push_key(&mut out, max);
        out.append("\n\t");
        push_decimal(&mut out, counts + first as u128);
        out.append(" accesses\n");
        if first > 0 {
            out.append("\t(");
            push_decimal(&mut out, first as u128);
            out.append(" first accesses)\n");
        }
        assert(out@ =~= summary(s));
    }
    out.append("value, count\n");
    let ghost head = out@;
    let mut i: usize = 0;
    while i < n
        invariant
            n == rows.len(),
            i <= n,
            out@ == head + table(rows@.take(i as int)),
        decreases n - i,
    {
        proof {
            assert(rows@.take(i + 1).drop_last() =~= rows@.take(i as int));
        }
        push_row(&mut out, rows[i]);
        i = i + 1;
    }
    proof {
        assert(rows@.take(n as int) =~= rows@);
    }
    out
}

} // verus!
