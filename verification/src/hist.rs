//! The histogram container: it counts how often each reuse distance, or the
//! sentinel for "no distance", was recorded.

use crate::model::{
    bag_of, copies, distinct_keys, fits, has_key, lemma_bag_of_prefix, lemma_copies,
    lemma_listing_rebuilds, listing, lists, total, Bag, Entry, Row,
};
use crate::snapshot::{is_snapshot, lemma_snapshot_is, precedes, snapshot};
use crate::sort::{sort_rows, sorted};
use crate::text::{report, write_report};
use std::collections::HashMap;
use vstd::multiset::Multiset;
use vstd::prelude::*;
use vstd::seq_lib::*;
use vstd::set_lib::*;
use vstd::std_specs::hash::spec_hash_map_iter;
use vstd::std_specs::iter::IteratorSpec;

verus! {

/// How often `k` is counted by the stored counts `m` of the measured
/// distances and the count `first` of the sentinel.
spec fn stored(m: Map<u64, usize>, first: usize, k: Option<u64>) -> nat {
    match k {
        Some(d) => if m.contains_key(d) {
            m[d] as nat
        } else {
            0
        },
        None => first as nat,
    }
}

/// The stored counts as one map over all keys.
spec fn tally(m: Map<u64, usize>, first: usize) -> Map<Option<u64>, nat> {
    Map::new(
        |k: Option<u64>|
            match k {
                Some(d) => m.contains_key(d),
                None => first > 0,
            },
        |k: Option<u64>| stored(m, first, k),
    )
}

/// The bag that the stored counts stand for.
spec fn bag(m: Map<u64, usize>, first: usize) -> Bag {
    Multiset::from_map(tally(m, first))
}

/// The bag counts each key as the store does.
proof fn lemma_bag(m: Map<u64, usize>, first: usize)
    requires
        m.dom().finite(),
    ensures
        forall|k: Option<u64>| #[trigger] bag(m, first).count(k) == stored(m, first, k),
{
    let t = tally(m, first);
    let some = |d: u64| Some(d);
    let cover = m.dom().map(some).insert(None);
    m.dom().lemma_map_finite(some);
    assert forall|k: Option<u64>| t.dom().contains(k) implies cover.contains(k) by {
        if let Some(d) = k {
            assert(m.dom().contains(d) && k == some(d));
        }
    }
    lemma_set_subset_finite(cover, t.dom());
    assert forall|k: Option<u64>| #[trigger] bag(m, first).count(k) == stored(m, first, k) by {
        if t.dom().contains(k) {
            assert(Multiset::from_map(t).count(k) == t[k]);
        } else {
            assert(Multiset::from_map(t).count(k) == 0);
        }
    }
}

/// `rows` holds exactly the pairs of `m`, each once.
spec fn holds(rows: Seq<Row>, m: Map<u64, usize>) -> bool {
    &&& forall|i: int|
        0 <= i < rows.len() ==> m.contains_key((#[trigger] rows[i]).0) && m[rows[i].0] == rows[i].1
    &&& forall|d: u64| #[trigger] m.contains_key(d) ==> rows.contains((d, m[d]))
    &&& rows.no_duplicates()
}

/// Rows that hold the pairs of `m` still do so after being rearranged.
proof fn lemma_rearranged(rows: Seq<Row>, other: Seq<Row>, m: Map<u64, usize>)
    requires
        holds(rows, m),
        other.to_multiset() == rows.to_multiset(),
    ensures
        holds(other, m),
        other.len() == rows.len(),
{
    to_multiset_len(rows);
    to_multiset_len(other);
    rows.lemma_multiset_has_no_duplicates();
    other.lemma_multiset_has_no_duplicates_conv();
    assert forall|i: int| 0 <= i < other.len() implies m.contains_key((#[trigger] other[i]).0)
        && m[other[i].0] == other[i].1 by {
        assert(other.contains(other[i]));
        to_multiset_contains(other, other[i]);
        to_multiset_contains(rows, other[i]);
    }
    assert forall|d: u64| #[trigger] m.contains_key(d) implies other.contains((d, m[d])) by {
        to_multiset_contains(rows, (d, m[d]));
        to_multiset_contains(other, (d, m[d]));
    }
}

/// Rows that hold the pairs of the store, followed by the sentinel's entry,
/// list the bag of the store; in the order of a snapshot if the rows are
/// sorted.
proof fn lemma_rows_list(rows: Seq<Row>, m: Map<u64, usize>, first: usize)
    requires
        holds(rows, m),
        m.dom().finite(),
        forall|d: u64| #[trigger] m.contains_key(d) ==> m[d] >= 1,
    ensures
        lists(listing(rows, first), bag(m, first)),
        sorted(rows) ==> is_snapshot(listing(rows, first), bag(m, first)),
{
    let s = listing(rows, first);
    let b = bag(m, first);
    lemma_bag(m, first);
    assert forall|i: int| 0 <= i < rows.len() implies #[trigger] s[i] == (
        Some(rows[i].0),
        rows[i].1,
    ) by {}
    assert forall|i: int, j: int| 0 <= i < j < rows.len() implies (#[trigger] rows[i]).0 != (
    #[trigger] rows[j]).0 by {
        if rows[i].0 == rows[j].0 {
            assert(rows[i] == rows[j]);
        }
    }
    assert(distinct_keys(s)) by {
        assert forall|i: int, j: int| 0 <= i < j < s.len() implies (#[trigger] s[i]).0 != (
        #[trigger] s[j]).0 by {
            if j < rows.len() {
                assert(rows[i].0 != rows[j].0);
            }
        }
    }
    assert forall|i: int| 0 <= i < s.len() implies (#[trigger] s[i]).1 > 0 && s[i].1 == b.count(
        s[i].0,
    ) by {
        if i < rows.len() {
            assert(m.contains_key(rows[i].0));
        }
    }
    assert forall|k: Option<u64>| b.count(k) > 0 implies has_key(s, k) by {
        match k {
            Some(d) => {
                assert(m.contains_key(d));
                let i = choose|i: int| 0 <= i < rows.len() && rows[i] == (d, m[d]);
                assert(s[i].0 == k);
            },
            None => {
                assert(s[rows.len() as int].0 == k);
            },
        }
    }
    if sorted(rows) {
        assert forall|i: int, j: int| 0 <= i < j < s.len() implies precedes(
            (#[trigger] s[i]).0,
            (#[trigger] s[j]).0,
        ) by {
            if j < rows.len() {
                assert(rows[i].0 != rows[j].0);
                assert(rows[i].0 <= rows[j].0);
            }
        }
    }
}

/// A frequency histogram of reuse distances.
///
/// Its view is the bag of all recorded values: `h@.count(v)` is the number
/// of times `v` was recorded, `h@.len()` the number of records.
#[derive(Debug)]
pub struct Hist {
    /// For each measured distance that was recorded, how often; never zero.
    concrete: HashMap<u64, usize>,
    /// How often the sentinel was recorded.
    unresolved: usize,
}

impl View for Hist {
    type V = Bag;

    closed spec fn view(&self) -> Bag {
        bag(self.concrete@, self.unresolved)
    }
}

impl Hist {
    #[verifier::type_invariant]
    spec fn counts_are_positive(self) -> bool {
        forall|d: u64| #[trigger] self.concrete@.contains_key(d) ==> self.concrete@[d] >= 1
    }

    /// An empty histogram.
    pub fn new() -> (h: Hist)
        ensures
            h@ == Multiset::<Option<u64>>::empty(),
    {
        let h = Hist { concrete: HashMap::new(), unresolved: 0 };
        proof {
            lemma_bag(h.concrete@, h.unresolved);
            assert(h@ =~= Multiset::<Option<u64>>::empty());
        }
        h
    }

    /// No count of a histogram exceeds `usize::MAX`.
    pub proof fn lemma_fits(&self)
        ensures
            fits(self@),
    {
        lemma_bag(self.concrete@, self.unresolved);
    }

    /// The count of `d` as the store has it.
    fn count(&self, d: Option<u64>) -> (n: usize)
        ensures
            n == self@.count(d),
    {
        proof {
            lemma_bag(self.concrete@, self.unresolved);
        }
        match d {
            Some(k) => match self.concrete.get(&k) {
                Some(c) => *c,
                None => 0,
            },
            None => self.unresolved,
        }
    }

    /// Records `n` more occurrences of `d`.
    fn add_copies(&mut self, d: Option<u64>, n: usize)
        requires
            n > 0,
            old(self)@.count(d) + n <= usize::MAX,
        ensures
            final(self)@ == old(self)@.add(copies(d, n as nat)),
    {
        let c: usize = self.count(d);
        proof {
            use_type_invariant(&*self);
            lemma_bag(self.concrete@, self.unresolved);
            lemma_copies(d, n as nat);
        }
        match d {
            Some(k) => {
                let mut m: HashMap<u64, usize> = HashMap::new();
                std::mem::swap(&mut m, &mut self.concrete);
                m.insert(k, c + n);
                self.concrete = m;
            },
            None => {
                self.unresolved = c + n;
            },
        }
        proof {
            lemma_bag(self.concrete@, self.unresolved);
            assert(self@ =~= old(self)@.add(copies(d, n as nat)));
        }
    }

    /// Records one occurrence of `d`: its count goes up by one, every other
    /// count stays.
    pub fn add_dist(&mut self, d: Option<u64>)
        requires
            old(self)@.count(d) < usize::MAX,
        ensures
            final(self)@ == old(self)@.insert(d),
    {
        self.add_copies(d, 1);
        proof {
            lemma_copies(d, 1);
            assert(copies(d, 1) =~= Multiset::singleton(d));
        }
    }

    /// The number of times `d` was recorded; 0 if it never was.
    pub fn check(&self, d: Option<u64>) -> (n: u64)
        ensures
            n == self@.count(d),
    {
        self.count(d) as u64
    }

    /// The stored pairs of distance and count, in the order in which the
    /// store hands them out.
    fn rows(&self) -> (v: Vec<Row>)
        ensures
            holds(v@, self.concrete@),
    {
        let mut v: Vec<Row> = Vec::new();
        let ghost m = self.concrete@;
        let ghost all = spec_hash_map_iter(&self.concrete).remaining();
        for kv in it: self.concrete.iter()
            invariant
                m == self.concrete@,
                it.seq() == all,
                all == spec_hash_map_iter(&self.concrete).remaining(),
                all.no_duplicates(),
                v.len() == it.index(),
                forall|i: int|
                    0 <= i < v.len() ==> #[trigger] v@[i] == (*all[i].0, *all[i].1),
        {
            let (k, c) = kv;
            v.push((*k, *c));
        }
        proof {
            assert(v.len() == all.len());
            assert forall|d: u64| #[trigger] m.contains_key(d) implies v@.contains((d, m[d])) by {
                assert(all.contains((&d, &m[d])));
                let i = choose|i: int| 0 <= i < all.len() && all[i] == (&d, &m[d]);
                assert(v@[i] == (d, m[d]));
            }
            assert forall|i: int, j: int| 0 <= i < v.len() && 0 <= j < v.len() && i != j implies v@[i]
                != v@[j] by {
                assert(all[i] != all[j]);
            }
        }
        v
    }

    /// The listing made of `rows` and the sentinel's entry.
    fn entries(&self, rows: &Vec<Row>) -> (v: Vec<Entry>)
        ensures
            v@ == listing(rows@, self.unresolved),
    {
        let mut v: Vec<Entry> = Vec::new();
        let mut i: usize = 0;
        while i < rows.len()
            invariant
                i <= rows.len(),
                v@ == listing(rows@.take(i as int), 0),
            decreases rows.len() - i,
        {
            v.push((Some(rows[i].0), rows[i].1));
            i = i + 1;
        }
        proof {
            assert(rows@.take(i as int) =~= rows@);
        }
        if self.unresolved > 0 {
            v.push((None, self.unresolved));
        }
        v
    }

    /// All entries, one for each recorded value with its count, in no
    /// particular order.
    pub fn iter(&self) -> (v: Vec<Entry>)
        ensures
            lists(v@, self@),
            bag_of(v@) == self@,
    {
        let rows = self.rows();
        proof {
            use_type_invariant(self);
            lemma_rows_list(rows@, self.concrete@, self.unresolved);
            lemma_listing_rebuilds(listing(rows@, self.unresolved), self@);
        }
        self.entries(&rows)
    }

    /// The stored pairs of distance and count in ascending order of
    /// distance: the rows of the snapshot.
    fn ordered_rows(&self) -> (v: Vec<Row>)
        ensures
            is_snapshot(listing(v@, self.unresolved), self@),
    {
        let rows = self.rows();
        let ordered = sort_rows(&rows);
        proof {
            use_type_invariant(self);
            lemma_rearranged(rows@, ordered@, self.concrete@);
            lemma_rows_list(ordered@, self.concrete@, self.unresolved);
        }
        ordered
    }

    /// The snapshot: all entries, the measured distances in ascending order
    /// and the sentinel's entry, if it was recorded, last.
    pub fn to_vec(&self) -> (v: Vec<Entry>)
        ensures
            is_snapshot(v@, self@),
            v@ == snapshot(self@),
            bag_of(v@) == self@,
            total(v@) == self@.len(),
    {
        let rows = self.ordered_rows();
        proof {
            lemma_snapshot_is(listing(rows@, self.unresolved), self@);
            lemma_listing_rebuilds(listing(rows@, self.unresolved), self@);
        }
        self.entries(&rows)
    }

    /// The report of the histogram as text: the report of its snapshot.
    pub fn render(&self) -> (out: String)
        ensures
            out@ == report(snapshot(self@)),
    {
        let rows = self.ordered_rows();
        proof {
            lemma_snapshot_is(listing(rows@, self.unresolved), self@);
        }
        write_report(&rows, self.unresolved)
    }

    /// The histogram that `entries` stand for: each entry adds its count to
    /// that of its key. There is none if a key's counts add up to more than
    /// `usize::MAX`.
    pub fn from_entries(entries: &Vec<Entry>) -> (r: Option<Hist>)
        ensures
            r is Some <==> fits(bag_of(entries@)),
            r matches Some(h) ==> h@ == bag_of(entries@),
    {
        let mut h = Hist::new();
        let mut i: usize = 0;
        while i < entries.len()
            invariant
                i <= entries.len(),
                h@ == bag_of(entries@.take(i as int)),
            decreases entries.len() - i,
        {
            let (k, n) = entries[i];
            let c: usize = h.count(k);
            proof {
                assert(entries@.take(i + 1).drop_last() =~= entries@.take(i as int));
                lemma_copies(k, n as nat);
            }
            if n > usize::MAX - c {
                proof {
                    lemma_bag_of_prefix(entries@, i + 1, k);
                    assert(bag_of(entries@).count(k) > usize::MAX);
                }
                return None;
            }
            if n > 0 {
                h.add_copies(k, n);
            } else {
                assert(h@.add(copies(k, 0)) =~= h@);
            }
            i = i + 1;
        }
        proof {
            assert(entries@.take(i as int) =~= entries@);
            h.lemma_fits();
        }
        Some(h)
    }
}

impl IntoIterator for Hist {
    type Item = Entry;

    type IntoIter = std::vec::IntoIter<Entry>;

    /// Hands out all entries, in no particular order.
    fn into_iter(self) -> (it: std::vec::IntoIter<Entry>)
        ensures
            lists(it.remaining(), self@),
    {
        let v = self.iter();
        v.into_iter()
    }
}

impl Default for Hist {
    /// An empty histogram.
    fn default() -> (h: Hist)
        ensures
            h@ == Multiset::<Option<u64>>::empty(),
    {
        Hist::new()
    }
}

} // verus!
