//! The snapshot of a histogram: its one listing in ascending order of keys,
//! the sentinel last.

use crate::model::{
    bag_of, copies, distinct_keys, fits, has_key, lemma_copies, lemma_listings_agree,
    lemma_lists_own_bag, lists, Bag, Entry,
};
use vstd::multiset::lemma_multiset_empty_len;
use vstd::prelude::*;

verus! {

/// The order in which keys appear in a snapshot: measured distances by
/// their value, and the sentinel after every one of them.
pub open spec fn precedes(a: Option<u64>, b: Option<u64>) -> bool {
    match (a, b) {
        (Some(x), Some(y)) => x < y,
        (Some(_), None) => true,
        (None, _) => false,
    }
}

/// Each entry's key comes before the keys of all later entries.
pub open spec fn ascending(s: Seq<Entry>) -> bool {
    forall|i: int, j: int|
        0 <= i < j < s.len() ==> precedes((#[trigger] s[i]).0, (#[trigger] s[j]).0)
}

/// `s` is the snapshot of `b`: it lists `b` in ascending order of keys,
/// the sentinel last.
pub open spec fn is_snapshot(s: Seq<Entry>, b: Bag) -> bool {
    lists(s, b) && ascending(s)
}

/// The snapshot of a bag. There is at most one (`lemma_snapshot_unique`),
/// and there is one whenever every count fits a `usize`
/// (`lemma_snapshot_exists`).
pub open spec fn snapshot(b: Bag) -> Seq<Entry> {
    choose|s: Seq<Entry>| is_snapshot(s, b)
}

/// Dropping the last entry of an ascending listing leaves it ascending.
proof fn lemma_ascending_front(s: Seq<Entry>)
    requires
        ascending(s),
        s.len() > 0,
    ensures
        ascending(s.drop_last()),
{
    let f = s.drop_last();
    assert forall|i: int, j: int| 0 <= i < j < f.len() implies precedes(
        (#[trigger] f[i]).0,
        (#[trigger] f[j]).0,
    ) by {
        assert(f[i] == s[i] && f[j] == s[j]);
    }
}

/// Two ascending listings that hold the same entries are equal.
proof fn lemma_ascending_unique(s1: Seq<Entry>, s2: Seq<Entry>)
    requires
        ascending(s1),
        ascending(s2),
        forall|i: int| 0 <= i < s1.len() ==> s2.contains(#[trigger] s1[i]),
        forall|j: int| 0 <= j < s2.len() ==> s1.contains(#[trigger] s2[j]),
    ensures
        s1 == s2,
    decreases s1.len(),
{
    if s1.len() == 0 {
        if s2.len() > 0 {
            assert(s1.contains(s2[0]));
        }
        assert(s1 =~= s2);
    } else {
        let n1 = s1.len() - 1;
        assert(s2.contains(s1[n1]));
        let j1 = choose|j: int| 0 <= j < s2.len() && s2[j] == s1[n1];
        let n2 = s2.len() - 1;
        assert(s1.contains(s2[n2]));
        let i2 = choose|i: int| 0 <= i < s1.len() && s1[i] == s2[n2];
        // Each of the two last entries is the greatest of the same entries.
        assert(s1[n1] == s2[n2]) by {
            if j1 < n2 && i2 < n1 {
                assert(precedes(s2[j1].0, s2[n2].0));
                assert(precedes(s1[i2].0, s1[n1].0));
            }
        }
        let f1 = s1.drop_last();
        let f2 = s2.drop_last();
        lemma_ascending_front(s1);
        lemma_ascending_front(s2);
        assert forall|i: int| 0 <= i < f1.len() implies f2.contains(#[trigger] f1[i]) by {
            assert(f1[i] == s1[i]);
            assert(s2.contains(s1[i]));
            let j = choose|j: int| 0 <= j < s2.len() && s2[j] == s1[i];
            assert(precedes(s1[i].0, s1[n1].0));
            assert(j != n2);
            assert(f2[j] == s2[j]);
        }
        assert forall|j: int| 0 <= j < f2.len() implies f1.contains(#[trigger] f2[j]) by {
            assert(f2[j] == s2[j]);
            assert(s1.contains(s2[j]));
            let i = choose|i: int| 0 <= i < s1.len() && s1[i] == s2[j];
            assert(precedes(s2[j].0, s2[n2].0));
            assert(i != n1);
            assert(f1[i] == s1[i]);
        }
        lemma_ascending_unique(f1, f2);
        assert(s1 =~= f1.push(s1[n1]));
        assert(s2 =~= f2.push(s2[n2]));
    }
}

/// A bag has at most one snapshot: the order of keys and the counts leave
/// no choice.
pub proof fn lemma_snapshot_unique(s1: Seq<Entry>, s2: Seq<Entry>, b: Bag)
    requires
        is_snapshot(s1, b),
        is_snapshot(s2, b),
    ensures
        s1 == s2,
{
    lemma_listings_agree(s1, s2, b);
    lemma_listings_agree(s2, s1, b);
    lemma_ascending_unique(s1, s2);
}

/// Any snapshot of `b` is the snapshot of `b`.
pub proof fn lemma_snapshot_is(s: Seq<Entry>, b: Bag)
    requires
        is_snapshot(s, b),
    ensures
        snapshot(b) == s,
{
    lemma_snapshot_unique(snapshot(b), s, b);
}

/// An ascending listing without a zero count is the snapshot of the bag
/// that it stands for: a histogram built from a snapshot has that snapshot.
pub proof fn lemma_snapshot_of_own_bag(s: Seq<Entry>)
    requires
        ascending(s),
        forall|i: int| 0 <= i < s.len() ==> (#[trigger] s[i]).1 > 0,
    ensures
        snapshot(bag_of(s)) == s,
{
    assert forall|i: int, j: int| 0 <= i < j < s.len() implies (#[trigger] s[i]).0 != (
    #[trigger] s[j]).0 by {
        assert(precedes(s[i].0, s[j].0));
    }
    lemma_lists_own_bag(s);
    lemma_snapshot_is(s, bag_of(s));
}

/// The ascending listing `s` with the entry `e` put into its place.
spec fn with_entry(s: Seq<Entry>, e: Entry) -> Seq<Entry>
    decreases s.len(),
{
    if s.len() == 0 || precedes(s.last().0, e.0) {
        s.push(e)
    } else {
        with_entry(s.drop_last(), e).push(s.last())
    }
}

/// Putting an entry with a new key into an ascending listing leaves it
/// ascending, and adds that entry and no other.
proof fn lemma_with_entry(s: Seq<Entry>, e: Entry)
    requires
        ascending(s),
        !has_key(s, e.0),
    ensures
        ascending(with_entry(s, e)),
        forall|x: Entry| #[trigger] with_entry(s, e).contains(x) <==> s.contains(x) || x == e,
    decreases s.len(),
{
    let r = with_entry(s, e);
    if s.len() == 0 || precedes(s.last().0, e.0) {
        assert forall|i: int, j: int| 0 <= i < j < r.len() implies precedes(
            (#[trigger] r[i]).0,
            (#[trigger] r[j]).0,
        ) by {
            if j == s.len() {
                assert(precedes(s[i].0, e.0)) by {
                    if i < s.len() - 1 {
                        assert(precedes(s[i].0, s[s.len() - 1].0));
                    }
                }
            } else {
                assert(precedes(s[i].0, s[j].0));
            }
        }
        assert forall|x: Entry| #[trigger] r.contains(x) <==> s.contains(x) || x == e by {
            if r.contains(x) {
                let i = choose|i: int| 0 <= i < r.len() && r[i] == x;
                if i < s.len() {
                    assert(s[i] == x);
                }
            }
            if s.contains(x) {
                let i = choose|i: int| 0 <= i < s.len() && s[i] == x;
                assert(r[i] == x);
            }
            assert(r[s.len() as int] == e);
        }
    } else {
        let front = s.drop_last();
        let last = s.last();
        let inner = with_entry(front, e);
        lemma_ascending_front(s);
        assert(!has_key(front, e.0)) by {
            if has_key(front, e.0) {
                let i = choose|i: int| 0 <= i < front.len() && (#[trigger] front[i]).0 == e.0;
                assert(s[i].0 == e.0);
            }
        }
        lemma_with_entry(front, e);
        assert(last.0 != e.0) by {
            assert(s[s.len() - 1].0 == last.0);
        }
        assert forall|i: int, j: int| 0 <= i < j < r.len() implies precedes(
            (#[trigger] r[i]).0,
            (#[trigger] r[j]).0,
        ) by {
            if j == inner.len() {
                assert(inner.contains(inner[i]));
                if front.contains(inner[i]) {
                    let p = choose|p: int| 0 <= p < front.len() && front[p] == inner[i];
                    assert(precedes(s[p].0, s[s.len() - 1].0));
                }
            } else {
                assert(precedes(inner[i].0, inner[j].0));
            }
        }
        assert forall|x: Entry| #[trigger] r.contains(x) <==> s.contains(x) || x == e by {
            if r.contains(x) {
                let i = choose|i: int| 0 <= i < r.len() && r[i] == x;
                if i < inner.len() {
                    assert(inner.contains(x));
                    if front.contains(x) {
                        let p = choose|p: int| 0 <= p < front.len() && front[p] == x;
                        assert(s[p] == x);
                    }
                } else {
                    assert(s[s.len() - 1] == x);
                }
            }
            if s.contains(x) {
                let p = choose|p: int| 0 <= p < s.len() && s[p] == x;
                if p < front.len() {
                    assert(front[p] == x);
                    assert(inner.contains(x));
                    let i = choose|i: int| 0 <= i < inner.len() && inner[i] == x;
                    assert(r[i] == x);
                } else {
                    assert(r[inner.len() as int] == x);
                }
            }
            if x == e {
                assert(inner.contains(x));
                let i = choose|i: int| 0 <= i < inner.len() && inner[i] == x;
                assert(r[i] == x);
            }
        }
    }
}

/// Every bag whose counts fit a `usize` has a snapshot.
pub proof fn lemma_snapshot_exists(b: Bag)
    requires
        fits(b),
    ensures
        is_snapshot(snapshot(b), b),
    decreases b.len(),
{
    if b.len() == 0 {
        lemma_multiset_empty_len(b);
        assert(is_snapshot(Seq::<Entry>::empty(), b));
    } else {
        let k = b.choose();
        let n = b.count(k);
        let mine = copies(k, n);
        let rest = b.sub(mine);
        lemma_copies(k, n);
        assert(mine.subset_of(b));
        lemma_snapshot_exists(rest);
        let s = snapshot(rest);
        let e: Entry = (k, n as usize);
        assert(!has_key(s, k)) by {
            if has_key(s, k) {
                let i = choose|i: int| 0 <= i < s.len() && (#[trigger] s[i]).0 == k;
                assert(s[i].1 > 0);
            }
        }
        lemma_with_entry(s, e);
        let r = with_entry(s, e);
        assert(distinct_keys(r)) by {
            assert forall|i: int, j: int| 0 <= i < j < r.len() implies (#[trigger] r[i]).0 != (
            #[trigger] r[j]).0 by {
                assert(precedes(r[i].0, r[j].0));
            }
        }
        assert forall|i: int| 0 <= i < r.len() implies (#[trigger] r[i]).1 > 0 && r[i].1
            == b.count(r[i].0) by {
            assert(r.contains(r[i]));
            if s.contains(r[i]) {
                let p = choose|p: int| 0 <= p < s.len() && s[p] == r[i];
                assert(s[p].1 > 0 && s[p].1 == rest.count(s[p].0));
            }
        }
        assert forall|j: Option<u64>| b.count(j) > 0 implies has_key(r, j) by {
            if j == k {
                assert(r.contains(e));
                let i = choose|i: int| 0 <= i < r.len() && r[i] == e;
                assert(r[i].0 == j);
            } else {
                assert(rest.count(j) > 0);
                assert(has_key(s, j));
                let p = choose|p: int| 0 <= p < s.len() && (#[trigger] s[p]).0 == j;
                assert(s.contains(s[p]));
                assert(r.contains(s[p]));
                let i = choose|i: int| 0 <= i < r.len() && r[i] == s[p];
                assert(r[i].0 == j);
            }
        }
        assert(is_snapshot(r, b));
    }
}

/// In a snapshot the measured distances ascend strictly, and the sentinel,
/// if it was recorded at all, is the last entry and the only one without a
/// distance.
pub proof fn lemma_snapshot_order(s: Seq<Entry>, b: Bag)
    requires
        is_snapshot(s, b),
    ensures
        forall|i: int, j: int|
            0 <= i < j < s.len() && (#[trigger] s[j]).0 is Some ==> (#[trigger] s[i]).0 is Some
                && s[i].0->0 < s[j].0->0,
        forall|i: int| 0 <= i < s.len() - 1 ==> (#[trigger] s[i]).0 is Some,
        b.count(None) > 0 <==> s.len() > 0 && s.last().0 is None,
        b.count(None) > 0 ==> s.last() == (None::<u64>, b.count(None) as usize),
{
    assert forall|i: int, j: int|
        0 <= i < j < s.len() && (#[trigger] s[j]).0 is Some implies (#[trigger] s[i]).0 is Some
        && s[i].0->0 < s[j].0->0 by {
        assert(precedes(s[i].0, s[j].0));
    }
    assert forall|i: int| 0 <= i < s.len() - 1 implies (#[trigger] s[i]).0 is Some by {
        assert(precedes(s[i].0, s[s.len() - 1].0));
    }
    if b.count(None) > 0 {
        assert(has_key(s, None));
        let i = choose|i: int| 0 <= i < s.len() && (#[trigger] s[i]).0 == None::<u64>;
        assert(i == s.len() - 1);
    }
    if s.len() > 0 && s.last().0 is None {
        assert(s[s.len() - 1].1 > 0);
    }
}

} // verus!
