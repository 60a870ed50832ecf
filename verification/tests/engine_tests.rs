use photo_organizer::date::CaptureDate;
use photo_organizer::engine::{run, Candidate, Config, ExtractOutcome, RelPath};

fn dt(year: u32, month: u32, day: u32, hour: u32, minute: u32, second: u32) -> CaptureDate {
    CaptureDate { year, month, day, hour, minute, second }
}

fn cand(source: &str, name: &str, extract: ExtractOutcome) -> Candidate {
    Candidate { source: source.to_string(), name: name.to_string(), extract }
}

fn config(format: &str, destructive: bool, simulate: bool) -> Config {
    Config { date_format: format.to_string(), destructive, simulate }
}

fn hist(report_counts: &[(String, usize)], key: &str) -> Option<usize> {
    report_counts.iter().find(|(k, _)| k == key).map(|(_, c)| *c)
}

#[test]
fn dated_file_lands_in_date_bucket() {
    let cands = vec![cand("/src/a.jpg", "a.jpg", ExtractOutcome::Found(dt(2023, 6, 15, 10, 30, 0)))];
    let report = run(&cands, &config("%Y-%m-%d", false, false), Vec::new(), 1);
    assert_eq!(report.stats.organized, 1);
    assert_eq!(report.stats.unsorted, 0);
    assert_eq!(report.actions.len(), 1);
    assert_eq!(report.actions[0].dir, "2023-06-15");
    assert_eq!(report.actions[0].dest_name, "a.jpg");
    assert_eq!(report.actions[0].source, "/src/a.jpg");
    assert!(!report.actions[0].destructive);
    assert_eq!(hist(&report.stats.date_counts, "2023-06-15"), Some(1));
}

#[test]
fn histogram_key_is_canonical_for_any_display_format() {
    let cands = vec![cand("/src/a.jpg", "a.jpg", ExtractOutcome::Found(dt(2023, 6, 15, 10, 30, 0)))];
    let report = run(&cands, &config("%Y/%m", false, false), Vec::new(), 1);
    assert_eq!(report.actions[0].dir, "2023/06");
    assert_eq!(hist(&report.stats.date_counts, "2023-06-15"), Some(1));
    assert_eq!(hist(&report.stats.date_counts, "2023/06"), None);
}

#[test]
fn undated_file_lands_in_unsorted() {
    let cands = vec![cand("/src/b.jpg", "b.jpg", ExtractOutcome::Absent)];
    let report = run(&cands, &config("%Y-%m-%d", false, false), Vec::new(), 1);
    assert_eq!(report.stats.unsorted, 1);
    assert_eq!(report.stats.organized, 0);
    assert_eq!(report.actions.len(), 1);
    assert_eq!(report.actions[0].dir, "unsorted");
    assert!(report.stats.date_counts.is_empty());
}

#[test]
fn unreadable_candidates_are_isolated() {
    let cands = vec![
        cand("/src/a.jpg", "a.jpg", ExtractOutcome::Found(dt(2023, 6, 15, 10, 30, 0))),
        cand("/src/bad.jpg", "bad.jpg", ExtractOutcome::Unreadable),
        cand("/src/c.jpg", "c.jpg", ExtractOutcome::Absent),
        cand("/src/worse.jpg", "worse.jpg", ExtractOutcome::Unreadable),
    ];
    let report = run(&cands, &config("%Y-%m-%d", false, false), Vec::new(), 1);
    assert_eq!(report.stats.errors, 2);
    assert_eq!(report.stats.organized, 1);
    assert_eq!(report.stats.unsorted, 1);
    assert_eq!(report.stats.skipped, 0);
    assert_eq!(report.actions.len(), 2);
}

#[test]
fn simulate_mode_emits_no_actions_but_same_counts() {
    let cands = vec![
        cand("/src/a.jpg", "a.jpg", ExtractOutcome::Found(dt(2023, 6, 15, 10, 30, 0))),
        cand("/src/b.jpg", "b.jpg", ExtractOutcome::Absent),
        cand("/src/bad.jpg", "bad.jpg", ExtractOutcome::Unreadable),
    ];
    let real = run(&cands, &config("%Y-%m-%d", false, false), Vec::new(), 1);
    let dry = run(&cands, &config("%Y-%m-%d", false, true), Vec::new(), 1);
    assert!(dry.actions.is_empty());
    assert!(!real.actions.is_empty());
    assert_eq!(dry.stats.organized, real.stats.organized);
    assert_eq!(dry.stats.unsorted, real.stats.unsorted);
    assert_eq!(dry.stats.skipped, real.stats.skipped);
    assert_eq!(dry.stats.errors, real.stats.errors);
    assert_eq!(dry.stats.date_counts, real.stats.date_counts);
}

#[test]
fn same_name_conflicts_get_deterministic_suffixes() {
    let d = ExtractOutcome::Found(dt(2023, 6, 15, 10, 30, 0));
    let cands = vec![
        cand("/one/photo.jpg", "photo.jpg", d),
        cand("/two/photo.jpg", "photo.jpg", d),
        cand("/three/photo.jpg", "photo.jpg", d),
    ];
    let report = run(&cands, &config("%Y-%m-%d", false, false), Vec::new(), 1);
    assert_eq!(report.stats.organized, 3);
    assert_eq!(report.actions[0].dest_name, "photo.jpg");
    assert_eq!(report.actions[1].dest_name, "photo_1.jpg");
    assert_eq!(report.actions[2].dest_name, "photo_2.jpg");
    assert_eq!(hist(&report.stats.date_counts, "2023-06-15"), Some(3));
}

#[test]
fn existing_destinations_are_never_overwritten() {
    let d = ExtractOutcome::Found(dt(2023, 6, 15, 10, 30, 0));
    let initial = vec![RelPath { dir: "2023-06-15".to_string(), name: "photo.jpg".to_string() }];
    let cands = vec![cand("/src/photo.jpg", "photo.jpg", d)];
    let report = run(&cands, &config("%Y-%m-%d", false, false), initial, 1);
    assert_eq!(report.actions.len(), 1);
    assert_eq!(report.actions[0].dest_name, "photo_1.jpg");
    assert_eq!(report.stats.organized, 1);
    assert_eq!(report.stats.skipped, 0);
}

#[test]
fn destructive_flag_is_carried_into_actions() {
    let cands = vec![cand("/src/a.jpg", "a.jpg", ExtractOutcome::Absent)];
    let report = run(&cands, &config("%Y-%m-%d", true, false), Vec::new(), 1);
    assert!(report.actions[0].destructive);
}

#[test]
fn final_state_lists_created_paths() {
    let cands = vec![
        cand("/src/a.jpg", "a.jpg", ExtractOutcome::Found(dt(2023, 6, 15, 10, 30, 0))),
        cand("/src/b.jpg", "b.jpg", ExtractOutcome::Absent),
    ];
    let report = run(&cands, &config("%Y-%m-%d", false, false), Vec::new(), 1);
    assert_eq!(report.state.len(), 2);
    assert_eq!(report.state[0].dir, "2023-06-15");
    assert_eq!(report.state[0].name, "a.jpg");
    assert_eq!(report.state[1].dir, "unsorted");
    assert_eq!(report.state[1].name, "b.jpg");
}

#[test]
fn histogram_counts_accumulate_per_day() {
    let cands = vec![
        cand("/src/a.jpg", "a.jpg", ExtractOutcome::Found(dt(2023, 6, 15, 10, 30, 0))),
        cand("/src/b.jpg", "b.jpg", ExtractOutcome::Found(dt(2023, 6, 15, 23, 0, 1))),
        cand("/src/c.jpg", "c.jpg", ExtractOutcome::Found(dt(2021, 1, 2, 3, 4, 5))),
    ];
    let report = run(&cands, &config("%Y-%m-%d", false, false), Vec::new(), 1);
    assert_eq!(hist(&report.stats.date_counts, "2023-06-15"), Some(2));
    assert_eq!(hist(&report.stats.date_counts, "2021-01-02"), Some(1));
}
