use reuse_hist::Hist;

#[test]
fn it_works() {
    let mut h = Hist::new();
    h.add_dist(None);
    h.add_dist(Some(1));
    h.add_dist(Some(1));
    h.add_dist(Some(100));

    let v = h.to_vec();
    assert_eq!(v[0], (Some(1), 2));
    assert_eq!(v[1], (Some(100), 1));
    assert_eq!(v[2], (None, 1));

    assert_eq!(
        h.render(),
        "Reuse distance histogram:
	3 distance value(s), min Some(1), max None
	4 accesses
	(1 first accesses)
value, count
1, 2
100, 1
"
    );
    println!("{}", h.render());
}

#[test]
fn new_histogram_counts_nothing() {
    let h = Hist::new();
    assert_eq!(h.check(None), 0);
    assert_eq!(h.check(Some(0)), 0);
    assert_eq!(h.check(Some(u64::MAX)), 0);
    assert_eq!(h.to_vec(), vec![]);
    assert_eq!(h.iter(), vec![]);
}

#[test]
fn default_is_empty() {
    let h = Hist::default();
    assert_eq!(h.to_vec(), vec![]);
    assert_eq!(h.render(), "value, count\n");
}

#[test]
fn check_counts_each_record() {
    let log = [Some(3), None, Some(3), Some(7), Some(3), None, Some(0)];
    let mut h = Hist::new();
    for d in log {
        h.add_dist(d);
    }
    assert_eq!(h.check(Some(3)), 3);
    assert_eq!(h.check(Some(7)), 1);
    assert_eq!(h.check(Some(0)), 1);
    assert_eq!(h.check(None), 2);
    assert_eq!(h.check(Some(4)), 0);
    for d in log {
        let times = log.iter().filter(|x| **x == d).count();
        assert_eq!(h.check(d), times as u64);
    }
}

#[test]
fn add_dist_changes_one_count_only() {
    let mut h = Hist::new();
    h.add_dist(Some(5));
    h.add_dist(None);
    let before_five = h.check(Some(5));
    let before_none = h.check(None);
    h.add_dist(Some(6));
    assert_eq!(h.check(Some(6)), 1);
    assert_eq!(h.check(Some(5)), before_five);
    assert_eq!(h.check(None), before_none);
    h.add_dist(Some(6));
    assert_eq!(h.check(Some(6)), 2);
}

#[test]
fn snapshot_is_ascending_with_sentinel_last() {
    let mut h = Hist::new();
    for d in [Some(30), None, Some(2), None, Some(u64::MAX), None, Some(0), Some(2), None, None] {
        h.add_dist(d);
    }
    assert_eq!(
        h.to_vec(),
        vec![(Some(0), 1), (Some(2), 2), (Some(30), 1), (Some(u64::MAX), 1), (None, 5)]
    );
}

#[test]
fn snapshot_without_sentinel_ends_with_greatest_distance() {
    let mut h = Hist::new();
    for d in [Some(9), Some(8), Some(10)] {
        h.add_dist(d);
    }
    assert_eq!(h.to_vec(), vec![(Some(8), 1), (Some(9), 1), (Some(10), 1)]);
}

#[test]
fn snapshot_counts_add_up_to_records() {
    let mut h = Hist::new();
    let mut records = 0;
    for i in 0..500u64 {
        h.add_dist(if i % 7 == 0 { None } else { Some(i % 13) });
        records += 1;
        let sum: usize = h.to_vec().iter().map(|e| e.1).sum();
        assert_eq!(sum, records);
    }
    let sum: usize = h.iter().iter().map(|e| e.1).sum();
    assert_eq!(sum, 500);
}

#[test]
fn snapshot_orders_many_distances() {
    let mut h = Hist::new();
    let mut d: u64 = 12345;
    for _ in 0..1000 {
        d = d.wrapping_mul(6364136223846793005).wrapping_add(1442695040888963407);
        h.add_dist(Some(d >> 54));
    }
    let v = h.to_vec();
    for w in v.windows(2) {
        assert!(w[0].0.unwrap() < w[1].0.unwrap());
    }
    for (k, c) in &v {
        assert!(*c > 0);
        assert_eq!(h.check(*k), *c as u64);
    }
    let sum: usize = v.iter().map(|e| e.1).sum();
    assert_eq!(sum, 1000);
}

#[test]
fn iter_lists_every_entry_once() {
    let mut h = Hist::new();
    for d in [Some(4), None, Some(1), Some(4), Some(9)] {
        h.add_dist(d);
    }
    let mut v = h.iter();
    assert_eq!(v.len(), 4);
    v.sort();
    assert_eq!(v, vec![(None, 1), (Some(1), 1), (Some(4), 2), (Some(9), 1)]);
}

#[test]
fn into_iter_hands_out_every_entry_once() {
    let mut h = Hist::new();
    for d in [Some(4), None, Some(1), Some(4), None] {
        h.add_dist(d);
    }
    let mut v: Vec<(Option<u64>, usize)> = h.into_iter().collect();
    v.sort();
    assert_eq!(v, vec![(None, 2), (Some(1), 1), (Some(4), 2)]);
}

#[test]
fn empty_histogram_renders_heading_only() {
    let h = Hist::new();
    assert_eq!(h.render(), "value, count\n");
}

#[test]
fn sentinel_only_histogram() {
    let mut h = Hist::new();
    h.add_dist(None);
    h.add_dist(None);
    h.add_dist(None);
    assert_eq!(h.to_vec(), vec![(None, 3)]);
    assert_eq!(
        h.render(),
        "Reuse distance histogram:\n\t1 distance value(s), min None, max None\n\t3 accesses\n\t(3 first accesses)\nvalue, count\n"
    );
}

#[test]
fn render_without_sentinel_has_no_first_access_line() {
    let mut h = Hist::new();
    for d in [Some(20), Some(3), Some(20)] {
        h.add_dist(d);
    }
    assert_eq!(
        h.render(),
        "Reuse distance histogram:\n\t2 distance value(s), min Some(3), max Some(20)\n\t3 accesses\nvalue, count\n3, 1\n20, 2\n"
    );
}

#[test]
fn render_single_distance() {
    let mut h = Hist::new();
    h.add_dist(Some(0));
    assert_eq!(
        h.render(),
        "Reuse distance histogram:\n\t1 distance value(s), min Some(0), max Some(0)\n\t1 accesses\nvalue, count\n0, 1\n"
    );
}

#[test]
fn render_writes_numbers_in_decimal() {
    let mut h = Hist::new();
    for _ in 0..12 {
        h.add_dist(Some(u64::MAX));
    }
    for _ in 0..109 {
        h.add_dist(Some(10));
    }
    for _ in 0..1000 {
        h.add_dist(None);
    }
    h.add_dist(Some(9));
    assert_eq!(
        h.render(),
        "Reuse distance histogram:\n\t4 distance value(s), min Some(9), max None\n\t1122 accesses\n\t(1000 first accesses)\nvalue, count\n9, 1\n10, 109\n18446744073709551615, 12\n"
    );
}

#[test]
fn render_agrees_with_snapshot() {
    let mut h = Hist::new();
    for i in 0..300u64 {
        h.add_dist(if i % 11 == 0 { None } else { Some((i * 37) % 101) });
    }
    let v = h.to_vec();
    let total: usize = v.iter().map(|e| e.1).sum();
    let mut want = format!(
        "Reuse distance histogram:\n\t{} distance value(s), min {:?}, max {:?}\n\t{} accesses\n",
        v.len(),
        v[0].0,
        v[v.len() - 1].0,
        total
    );
    want += &format!("\t({} first accesses)\n", v[v.len() - 1].1);
    want += "value, count\n";
    for (k, c) in &v[..v.len() - 1] {
        want += &format!("{}, {}\n", k.unwrap(), c);
    }
    assert_eq!(h.render(), want);
}
