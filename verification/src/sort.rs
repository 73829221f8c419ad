//! Ordering rows by distance: a merge sort, proved to return its input
//! rearranged and in order.

use crate::model::Row;
use vstd::multiset::*;
use vstd::prelude::*;
use vstd::seq_lib::*;

verus! {

/// The distances never decrease along `s`.
pub(crate) open spec fn sorted(s: Seq<Row>) -> bool {
    forall|i: int, j: int| 0 <= i < j < s.len() ==> (#[trigger] s[i]).0 <= (#[trigger] s[j]).0
}

/// A sequence without rows holds nothing.
proof fn lemma_no_rows(s: Seq<Row>)
    requires
        s.len() == 0,
    ensures
        s.to_multiset() == Multiset::<Row>::empty(),
{
    to_multiset_len(s);
    lemma_multiset_empty_len(s.to_multiset());
}

/// Merges two sorted vectors into one sorted vector that holds the rows of
/// both.
fn merge(a: &Vec<Row>, b: &Vec<Row>) -> (out: Vec<Row>)
    requires
        sorted(a@),
        sorted(b@),
    ensures
        sorted(out@),
        out@.to_multiset() == a@.to_multiset().add(b@.to_multiset()),
{
    let mut out: Vec<Row> = Vec::new();
    let mut i: usize = 0;
    let mut j: usize = 0;
    proof {
        lemma_no_rows(out@);
        lemma_no_rows(a@.take(0));
        lemma_no_rows(b@.take(0));
    }
    while i < a.len() || j < b.len()
        invariant
            i <= a.len(),
            j <= b.len(),
            sorted(a@),
            sorted(b@),
            sorted(out@),
            out@.to_multiset() == a@.take(i as int).to_multiset().add(
                b@.take(j as int).to_multiset(),
            ),
            forall|p: int, q: int|
                0 <= p < out.len() && i <= q < a.len() ==> (#[trigger] out@[p]).0 <= (
                #[trigger] a@[q]).0,
            forall|p: int, q: int|
                0 <= p < out.len() && j <= q < b.len() ==> (#[trigger] out@[p]).0 <= (
                #[trigger] b@[q]).0,
        decreases a.len() - i + b.len() - j,
    {
        let from_a = if j >= b.len() {
            true
        } else if i >= a.len() {
            false
        } else {
            a[i].0 <= b[j].0
        };
        let ghost before = out@;
        if from_a {
            proof {
                assert(a@.take(i + 1) =~= a@.take(i as int).push(a@[i as int]));
                to_multiset_build(a@.take(i as int), a@[i as int]);
                to_multiset_build(before, a@[i as int]);
            }
            out.push(a[i]);
            i = i + 1;
        } else {
            proof {
                assert(b@.take(j + 1) =~= b@.take(j as int).push(b@[j as int]));
                to_multiset_build(b@.take(j as int), b@[j as int]);
                to_multiset_build(before, b@[j as int]);
            }
            out.push(b[j]);
            j = j + 1;
        }
        assert(out@.to_multiset() =~= a@.take(i as int).to_multiset().add(
            b@.take(j as int).to_multiset(),
        ));
    }
    proof {
        assert(a@.take(i as int) =~= a@);
        assert(b@.take(j as int) =~= b@);
    }
    out
}

/// Sorts the rows of `v` from index `lo` up to, not including, `hi`.
fn sort_range(v: &Vec<Row>, lo: usize, hi: usize) -> (out: Vec<Row>)
    requires
        lo <= hi <= v.len(),
    ensures
        sorted(out@),
        out@.to_multiset() == v@.subrange(lo as int, hi as int).to_multiset(),
    decreases hi - lo,
{
    let n: usize = hi - lo;
    if n == 0 {
        let out: Vec<Row> = Vec::new();
        proof {
            lemma_no_rows(out@);
            lemma_no_rows(v@.subrange(lo as int, hi as int));
        }
        out
    } else if n == 1 {
        let mut out: Vec<Row> = Vec::new();
        out.push(v[lo]);
        proof {
            assert(out@ =~= v@.subrange(lo as int, hi as int));
        }
        out
    } else {
        let mid: usize = lo + n / 2;
        let left = sort_range(v, lo, mid);
        let right = sort_range(v, mid, hi);
        proof {
            assert(v@.subrange(lo as int, hi as int) =~= v@.subrange(lo as int, mid as int)
                + v@.subrange(mid as int, hi as int));
            lemma_multiset_commutative(
                v@.subrange(lo as int, mid as int),
                v@.subrange(mid as int, hi as int),
            );
        }
        merge(&left, &right)
    }
}

/// Returns the rows of `v` ordered by distance. The result holds each row
/// as often as `v` does.
pub(crate) fn sort_rows(v: &Vec<Row>) -> (out: Vec<Row>)
    ensures
        sorted(out@),
        out@.to_multiset() == v@.to_multiset(),
{
    proof {
        assert(v@.subrange(0, v.len() as int) =~= v@);
    }
    sort_range(v, 0, v.len())
}

} // verus!
