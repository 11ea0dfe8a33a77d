use drone_sim::geometry::UNIT;
use drone_sim::study::{
    has_headroom, mean, peak, plan_run, read_report, report_field, shows_progress, sort_results,
    summarize, ReportKind, RunPlan, RunReport, RunResult, TimeSummary, LAST_RUN,
};

fn result(seed: u32, internal_time: i64) -> RunResult {
    RunResult { seed, internal_time, wall_time: 0, coverage: 0, cpu_at_end: 0, ram_at_end: 0 }
}

#[test]
fn runs_have_their_own_seeds_and_ports() {
    assert_eq!(plan_run(1), RunPlan { seed: 100_001, base_port: 10_020 });
    assert_eq!(plan_run(1000), RunPlan { seed: 101_000, base_port: 30_000 });
    assert_eq!(plan_run(LAST_RUN).base_port, 4_294_967_280);
}

#[test]
fn runs_wait_for_headroom() {
    assert!(has_headroom(59, 59, 60, 60));
    assert!(!has_headroom(60, 10, 60, 60));
    assert!(!has_headroom(10, 60, 60, 60));
    assert!(shows_progress(50, 1000));
    assert!(shows_progress(7, 7));
    assert!(!shows_progress(51, 1000));
}

#[test]
fn lines_report_numbers() {
    let field = |line: &str| {
        let line: Vec<char> = line.chars().collect();
        report_field(&line).map(|(k, t)| (k, t.into_iter().collect::<String>()))
    };
    assert_eq!(field("TIME: 12.34s"), Some((ReportKind::Time, "12.34".to_string())));
    assert_eq!(field("COVERAGE: 95.01%"), Some((ReportKind::Coverage, "95.01".to_string())));
    assert_eq!(field("PROGRESS:  7.00 %"), Some((ReportKind::Progress, "7.00".to_string())));
    assert_eq!(field("TIME: 1%"), Some((ReportKind::Time, "1%".to_string())));
    assert_eq!(field("TIME: ss"), Some((ReportKind::Time, String::new())));
    assert_eq!(field("TIME:1s"), None);
    assert_eq!(field(" TIME: 1s"), None);
    assert_eq!(field(""), None);
    // White space is what Unicode calls by that name.
    for c in "\u{9}\u{d}\u{85}\u{a0}\u{1680}\u{2000}\u{200a}\u{2028}\u{2029}\u{202f}\u{205f}\u{3000}".chars() {
        assert!(c.is_whitespace());
        assert_eq!(field(&format!("TIME: {}12{}s", c, c)), Some((ReportKind::Time, "12".to_string())));
    }
    for c in ['\u{200b}', '\u{180e}', '\u{e}', '\u{8}'] {
        assert!(!c.is_whitespace());
        assert_eq!(field(&format!("TIME: {}", c)), Some((ReportKind::Time, c.to_string())));
    }
}

#[test]
fn the_last_line_counts_and_progress_only_raises() {
    assert_eq!(read_report(&vec![]), RunReport { internal_time: -UNIT, coverage: 0 });
    let lines = vec![(ReportKind::Progress, 5), (ReportKind::Progress, 3), (ReportKind::Time, 9), (ReportKind::Coverage, 4), (ReportKind::Time, 8)];
    assert_eq!(read_report(&lines), RunReport { internal_time: 8, coverage: 4 });
    let lines = vec![(ReportKind::Coverage, 4), (ReportKind::Progress, 6), (ReportKind::Progress, 5)];
    assert_eq!(read_report(&lines), RunReport { internal_time: -UNIT, coverage: 6 });
}

#[test]
fn results_are_sorted_by_seed() {
    let sorted = sort_results(&vec![result(3, 1), result(1, 2), result(3, 0), result(2, 4)]);
    assert_eq!(sorted, vec![result(1, 2), result(2, 4), result(3, 1), result(3, 0)]);
    assert!(sort_results(&vec![]).is_empty());
}

#[test]
fn summaries_leave_failures_out() {
    let none = TimeSummary { success_count: 0, mean: 0, median: 0, min: 0, max: 0 };
    assert_eq!(summarize(&vec![]), none);
    assert_eq!(summarize(&vec![result(1, -UNIT)]), none);
    let runs = vec![result(1, 10), result(2, -UNIT), result(3, 4), result(4, 7), result(5, 0)];
    let t = summarize(&runs);
    assert_eq!(t, TimeSummary { success_count: 4, mean: 5, median: 7, min: 0, max: 10 });
    assert!(runs[0].is_success() && !runs[1].is_success() && runs[4].is_success());
}

#[test]
fn means_and_peaks() {
    assert_eq!(mean(&vec![]), 0);
    assert_eq!(mean(&vec![1, 2, 2]), 1);
    assert_eq!(mean(&vec![-1, -2, -2]), -2);
    assert_eq!(mean(&vec![-3, -3]), -3);
    assert_eq!(mean(&vec![i64::MAX, i64::MAX]), i64::MAX);
    assert_eq!(mean(&vec![i64::MIN, i64::MIN]), i64::MIN);
    assert_eq!(peak(&vec![]), 0);
    assert_eq!(peak(&vec![-5, -6]), 0);
    assert_eq!(peak(&vec![3, 9, 4]), 9);
}
