use reuse_hist::text::write_report;

#[test]
fn write_report_of_nothing() {
    assert_eq!(write_report(&vec![], 0), "value, count\n");
}

#[test]
fn write_report_of_rows_and_sentinel() {
    assert_eq!(
        write_report(&vec![(1, 2), (100, 1)], 1),
        "Reuse distance histogram:\n\t3 distance value(s), min Some(1), max None\n\t4 accesses\n\t(1 first accesses)\nvalue, count\n1, 2\n100, 1\n"
    );
    assert_eq!(
        write_report(&vec![(1, 2), (100, 1)], 0),
        "Reuse distance histogram:\n\t2 distance value(s), min Some(1), max Some(100)\n\t3 accesses\nvalue, count\n1, 2\n100, 1\n"
    );
    assert_eq!(
        write_report(&vec![], 40),
        "Reuse distance histogram:\n\t1 distance value(s), min None, max None\n\t40 accesses\n\t(40 first accesses)\nvalue, count\n"
    );
}
