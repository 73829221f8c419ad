//! The mathematical model of a histogram.
//!
//! A histogram is the bag (multiset) of every value that was recorded into
//! it. The sentinel, "no distance could be measured", is `None`; a measured
//! distance `d` is `Some(d)`. A listing of a histogram is a sequence of
//! entries, each a key with its count.

use vstd::multiset::Multiset;
use vstd::prelude::*;

verus! {

/// One line of a listing: a key and the number of times it was recorded.
pub type Entry = (Option<u64>, usize);

/// A measured distance and the number of times it was recorded.
pub type Row = (u64, usize);

/// The bag of recorded values.
pub type Bag = Multiset<Option<u64>>;

/// The bag that holds `n` copies of `k` and nothing else.
pub open spec fn copies(k: Option<u64>, n: nat) -> Bag
    decreases n,
{
    if n == 0 {
        Multiset::empty()
    } else {
        copies(k, (n - 1) as nat).insert(k)
    }
}

/// The bag that a listing stands for: each entry contributes as many copies
/// of its key as its count says. Keys that occur twice add up.
pub open spec fn bag_of(s: Seq<Entry>) -> Bag
    decreases s.len(),
{
    if s.len() == 0 {
        Multiset::empty()
    } else {
        bag_of(s.drop_last()).add(copies(s.last().0, s.last().1 as nat))
    }
}

/// The sum of all counts of a listing.
pub open spec fn total(s: Seq<Entry>) -> nat
    decreases s.len(),
{
    if s.len() == 0 {
        0
    } else {
        total(s.drop_last()) + s.last().1 as nat
    }
}

/// No key occurs in two entries.
pub open spec fn distinct_keys(s: Seq<Entry>) -> bool {
    forall|i: int, j: int| 0 <= i < j < s.len() ==> (#[trigger] s[i]).0 != (#[trigger] s[j]).0
}

/// The key `k` has an entry in `s`.
pub open spec fn has_key(s: Seq<Entry>, k: Option<u64>) -> bool {
    exists|i: int| 0 <= i < s.len() && (#[trigger] s[i]).0 == k
}

/// `s` lists the bag `b`: every value in `b` has exactly one entry, which
/// carries its count, and there are no other entries.
pub open spec fn lists(s: Seq<Entry>, b: Bag) -> bool {
    &&& distinct_keys(s)
    &&& forall|i: int|
        0 <= i < s.len() ==> (#[trigger] s[i]).1 > 0 && s[i].1 == b.count(s[i].0)
    &&& forall|k: Option<u64>| b.count(k) > 0 ==> has_key(s, k)
}

/// The listing made of one entry for each row, in the rows' order, followed
/// by an entry for the sentinel if it was recorded `first` > 0 times.
pub open spec fn listing(rows: Seq<Row>, first: usize) -> Seq<Entry> {
    let measured = rows.map_values(|r: Row| (Some(r.0), r.1));
    if first > 0 {
        measured.push((None, first))
    } else {
        measured
    }
}

/// Every count of the bag can be held in a `usize`.
pub open spec fn fits(b: Bag) -> bool {
    forall|k: Option<u64>| b.count(k) <= usize::MAX
}

/// `copies(k, n)` has `n` elements, all of them `k`.
pub proof fn lemma_copies(k: Option<u64>, n: nat)
    ensures
        copies(k, n).len() == n,
        copies(k, n).count(k) == n,
        forall|j: Option<u64>| j != k ==> copies(k, n).count(j) == 0,
    decreases n,
{
    if n > 0 {
        lemma_copies(k, (n - 1) as nat);
    }
}

/// A listing's bag has as many elements as the listing's counts add up to.
pub proof fn lemma_bag_of_len(s: Seq<Entry>)
    ensures
        bag_of(s).len() == total(s),
    decreases s.len(),
{
    if s.len() > 0 {
        lemma_bag_of_len(s.drop_last());
        lemma_copies(s.last().0, s.last().1 as nat);
    }
}

/// In the bag of a listing with distinct keys, each key has the count of its
/// entry, and a key without an entry has none.
pub proof fn lemma_bag_of_counts(s: Seq<Entry>)
    requires
        distinct_keys(s),
    ensures
        forall|i: int| 0 <= i < s.len() ==> bag_of(s).count((#[trigger] s[i]).0) == s[i].1,
        forall|k: Option<u64>| !has_key(s, k) ==> bag_of(s).count(k) == 0,
    decreases s.len(),
{
    if s.len() > 0 {
        let front = s.drop_last();
        let last = s.last();
        assert(distinct_keys(front)) by {
            assert forall|i: int, j: int| 0 <= i < j < front.len() implies (#[trigger] front[i]).0
                != (#[trigger] front[j]).0 by {
                assert(front[i] == s[i] && front[j] == s[j]);
            }
        }
        lemma_bag_of_counts(front);
        lemma_copies(last.0, last.1 as nat);
        assert(!has_key(front, last.0)) by {
            if has_key(front, last.0) {
                let i = choose|i: int| 0 <= i < front.len() && (#[trigger] front[i]).0 == last.0;
                assert(front[i] == s[i]);
                assert(s[i].0 != s[s.len() - 1].0);
            }
        }
        assert forall|i: int| 0 <= i < s.len() implies bag_of(s).count((#[trigger] s[i]).0)
            == s[i].1 by {
            if i < s.len() - 1 {
                assert(front[i] == s[i]);
                assert(s[i].0 != s[s.len() - 1].0);
            }
        }
        assert forall|k: Option<u64>| !has_key(s, k) implies bag_of(s).count(k) == 0 by {
            assert(k != last.0) by {
                assert(s[s.len() - 1].0 == last.0);
            }
            assert(!has_key(front, k)) by {
                if has_key(front, k) {
                    let i = choose|i: int| 0 <= i < front.len() && (#[trigger] front[i]).0 == k;
                    assert(s[i].0 == k);
                }
            }
        }
    }
}

/// A prefix of a listing counts no key more often than the whole listing.
pub proof fn lemma_bag_of_prefix(s: Seq<Entry>, n: int, k: Option<u64>)
    requires
        0 <= n <= s.len(),
    ensures
        bag_of(s.take(n)).count(k) <= bag_of(s).count(k),
    decreases s.len() - n,
{
    if n < s.len() {
        lemma_bag_of_prefix(s, n + 1, k);
        assert(s.take(n + 1).drop_last() =~= s.take(n));
    } else {
        assert(s.take(n) =~= s);
    }
}

/// A listing of a bag stands for that bag: building the bag back from the
/// entries loses nothing and adds nothing.
pub proof fn lemma_listing_rebuilds(s: Seq<Entry>, b: Bag)
    requires
        lists(s, b),
    ensures
        bag_of(s) == b,
        total(s) == b.len(),
{
    lemma_bag_of_counts(s);
    lemma_bag_of_len(s);
    assert forall|k: Option<u64>| bag_of(s).count(k) == b.count(k) by {
        if has_key(s, k) {
            let i = choose|i: int| 0 <= i < s.len() && (#[trigger] s[i]).0 == k;
            assert(bag_of(s).count(s[i].0) == s[i].1);
        }
    }
    assert(bag_of(s) =~= b);
}

/// A listing with distinct keys and no zero count lists its own bag.
pub proof fn lemma_lists_own_bag(s: Seq<Entry>)
    requires
        distinct_keys(s),
        forall|i: int| 0 <= i < s.len() ==> (#[trigger] s[i]).1 > 0,
    ensures
        lists(s, bag_of(s)),
{
    lemma_bag_of_counts(s);
}

/// Two listings of one bag hold the same entries, whatever their order.
pub proof fn lemma_listings_agree(s1: Seq<Entry>, s2: Seq<Entry>, b: Bag)
    requires
        lists(s1, b),
        lists(s2, b),
    ensures
        forall|i: int| 0 <= i < s1.len() ==> s2.contains(#[trigger] s1[i]),
{
    assert forall|i: int| 0 <= i < s1.len() implies s2.contains(#[trigger] s1[i]) by {
        assert(b.count(s1[i].0) > 0);
        assert(has_key(s2, s1[i].0));
        let j = choose|j: int| 0 <= j < s2.len() && (#[trigger] s2[j]).0 == s1[i].0;
        assert(s2[j] == s1[i]);
    }
}

} // verus!
