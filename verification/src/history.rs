//! What a histogram holds after a sequence of records, and what follows for
//! its counts and its snapshot.

use crate::model::{fits, lemma_listing_rebuilds, lists, total, Bag, Entry};
use crate::snapshot::{lemma_snapshot_exists, snapshot};
use vstd::multiset::Multiset;
use vstd::prelude::*;

verus! {

/// The bag of a histogram that was created empty and into which the values
/// of `log` were then recorded, one after the other.
pub open spec fn recorded(log: Seq<Option<u64>>) -> Bag
    decreases log.len(),
{
    if log.len() == 0 {
        Multiset::empty()
    } else {
        recorded(log.drop_last()).insert(log.last())
    }
}

/// The number of positions of `log` that hold `v`.
pub open spec fn occurrences(log: Seq<Option<u64>>, v: Option<u64>) -> nat
    decreases log.len(),
{
    if log.len() == 0 {
        0
    } else {
        occurrences(log.drop_last(), v) + if log.last() == v {
            1nat
        } else {
            0nat
        }
    }
}

/// After any sequence of records, the count of a value is the number of
/// times it was recorded; that of a value never recorded is 0.
pub proof fn lemma_count_is_occurrences(log: Seq<Option<u64>>, v: Option<u64>)
    ensures
        recorded(log).count(v) == occurrences(log, v),
    decreases log.len(),
{
    if log.len() > 0 {
        lemma_count_is_occurrences(log.drop_last(), v);
    }
}

/// After any sequence of records, the histogram holds as many values as
/// there were records.
pub proof fn lemma_len_is_records(log: Seq<Option<u64>>)
    ensures
        recorded(log).len() == log.len(),
    decreases log.len(),
{
    if log.len() > 0 {
        lemma_len_is_records(log.drop_last());
    }
}

/// The counts of any listing of a histogram, its snapshot among them, add
/// up to the number of records made.
pub proof fn lemma_total_is_records(log: Seq<Option<u64>>, s: Seq<Entry>)
    requires
        lists(s, recorded(log)),
    ensures
        total(s) == log.len(),
{
    lemma_listing_rebuilds(s, recorded(log));
    lemma_len_is_records(log);
}

/// The counts of the snapshot add up to the number of records made.
pub proof fn lemma_snapshot_total_is_records(log: Seq<Option<u64>>)
    requires
        fits(recorded(log)),
    ensures
        total(snapshot(recorded(log))) == log.len(),
{
    lemma_snapshot_exists(recorded(log));
    lemma_total_is_records(log, snapshot(recorded(log)));
}

} // verus!
