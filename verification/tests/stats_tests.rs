use photo_organizer::stats::Stats;

#[test]
fn new_stats_are_zeroed() {
    let s = Stats::new();
    assert_eq!(s.organized, 0);
    assert_eq!(s.unsorted, 0);
    assert_eq!(s.skipped, 0);
    assert_eq!(s.errors, 0);
    assert!(s.date_counts.is_empty());
}

#[test]
fn record_functions_touch_one_bucket_each() {
    let mut s = Stats::new();
    s.record_organized();
    s.record_organized();
    s.record_unsorted();
    s.record_skipped();
    s.record_error();
    assert_eq!(s.organized, 2);
    assert_eq!(s.unsorted, 1);
    assert_eq!(s.skipped, 1);
    assert_eq!(s.errors, 1);
    assert!(s.date_counts.is_empty());
}

#[test]
fn histogram_counts_per_key() {
    let mut s = Stats::new();
    s.bump_date_count("2023-06-15");
    s.bump_date_count("2023-06-15");
    s.bump_date_count("2021-01-02");
    assert_eq!(s.date_counts.len(), 2);
    let get = |k: &str| s.date_counts.iter().find(|(n, _)| n == k).map(|(_, c)| *c);
    assert_eq!(get("2023-06-15"), Some(2));
    assert_eq!(get("2021-01-02"), Some(1));
    assert_eq!(get("2022-05-05"), None);
}
