use reuse_hist::Hist;

#[test]
fn from_entries_rebuilds_a_snapshot() {
    let mut h = Hist::new();
    for d in [None, Some(1), Some(1), Some(100), Some(7), None] {
        h.add_dist(d);
    }
    let back = Hist::from_entries(&h.to_vec()).unwrap();
    for d in [None, Some(1), Some(100), Some(7), Some(8)] {
        assert_eq!(back.check(d), h.check(d));
    }
    assert_eq!(back.to_vec(), h.to_vec());
    assert_eq!(back.render(), h.render());
}

#[test]
fn from_entries_rebuilds_an_unordered_listing() {
    let mut h = Hist::new();
    for i in 0..200u64 {
        h.add_dist(if i % 5 == 0 { None } else { Some(i % 17) });
    }
    let back = Hist::from_entries(&h.iter()).unwrap();
    assert_eq!(back.to_vec(), h.to_vec());
    for k in 0..20u64 {
        assert_eq!(back.check(Some(k)), h.check(Some(k)));
    }
    assert_eq!(back.check(None), h.check(None));
}

#[test]
fn from_entries_of_nothing_is_empty() {
    let h = Hist::from_entries(&vec![]).unwrap();
    assert_eq!(h.to_vec(), vec![]);
    assert_eq!(h.check(None), 0);
}

#[test]
fn from_entries_adds_up_repeated_keys() {
    let h = Hist::from_entries(&vec![(Some(5), 2), (None, 1), (Some(5), 3), (None, 4), (Some(1), 1)])
        .unwrap();
    assert_eq!(h.to_vec(), vec![(Some(1), 1), (Some(5), 5), (None, 5)]);
}

#[test]
fn from_entries_drops_zero_counts() {
    let h = Hist::from_entries(&vec![(Some(5), 0), (None, 0), (Some(6), 1)]).unwrap();
    assert_eq!(h.to_vec(), vec![(Some(6), 1)]);
    assert_eq!(h.check(Some(5)), 0);
    assert_eq!(h.check(None), 0);
    assert_eq!(h.iter(), vec![(Some(6), 1)]);
}

#[test]
fn from_entries_holds_the_greatest_count() {
    let h = Hist::from_entries(&vec![(Some(5), usize::MAX), (None, usize::MAX)]).unwrap();
    assert_eq!(h.check(Some(5)), usize::MAX as u64);
    assert_eq!(h.check(None), usize::MAX as u64);
    assert_eq!(h.to_vec(), vec![(Some(5), usize::MAX), (None, usize::MAX)]);
}

#[test]
fn from_entries_refuses_a_count_that_does_not_fit() {
    assert!(Hist::from_entries(&vec![(Some(5), usize::MAX), (Some(5), 1)]).is_none());
    assert!(Hist::from_entries(&vec![(None, 1), (Some(2), 1), (None, usize::MAX)]).is_none());
    assert!(Hist::from_entries(&vec![(None, usize::MAX), (Some(2), 1), (None, 0)]).is_some());
}

#[test]
fn render_sums_counts_beyond_the_word_size() {
    let h = Hist::from_entries(&vec![(Some(5), usize::MAX), (Some(6), usize::MAX), (None, 2)])
        .unwrap();
    let total = 2 * (usize::MAX as u128) + 2;
    assert_eq!(
        h.render(),
        format!(
            "Reuse distance histogram:\n\t3 distance value(s), min Some(5), max None\n\t{} accesses\n\t(2 first accesses)\nvalue, count\n5, {}\n6, {}\n",
            total,
            usize::MAX,
            usize::MAX
        )
    );
}
