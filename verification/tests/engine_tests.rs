use fast_copy::engine::{
    copy_method, plan_run, scan_sources, Coordinator, CopyMethod, CopyMode, CopyProgress,
    FilePlan, LargeCopy, Observation, RunStart, ScannedSource, SourceKind,
};
use fast_copy::engine::{next_chunk_step, ChunkStep, BUFFERED_CHUNK_SIZE, LARGE_CHUNK_SIZE};
use fast_copy::speed::SpeedTracker;

fn file(size: u64) -> ScannedSource {
    ScannedSource { kind: SourceKind::File, size, dir_file_sizes: Vec::new() }
}

fn dir(sizes: Vec<u64>) -> ScannedSource {
    ScannedSource { kind: SourceKind::Dir, size: 0, dir_file_sizes: sizes }
}

fn missing() -> ScannedSource {
    ScannedSource { kind: SourceKind::Missing, size: 0, dir_file_sizes: Vec::new() }
}

fn other() -> ScannedSource {
    ScannedSource { kind: SourceKind::Other, size: 7, dir_file_sizes: Vec::new() }
}

#[test]
fn default_mode_is_auto() {
    assert!(CopyMode::default() == CopyMode::Auto);
}

#[test]
fn scan_adds_files_and_directories() {
    let sources = vec![file(10), dir(vec![1, 2, 3]), missing(), other()];
    assert_eq!(scan_sources(&sources), Some((16, 4)));
}

#[test]
fn scan_reports_overflow() {
    let sources = vec![file(u64::MAX), dir(vec![1])];
    assert_eq!(scan_sources(&sources), None);
}

#[test]
fn plan_nothing_when_no_source_exists() {
    let sources = vec![missing(), missing()];
    assert!(matches!(plan_run(CopyMode::Auto, &sources), RunStart::NothingToCopy));
}

#[test]
fn plan_overflow() {
    let sources = vec![file(u64::MAX), file(1)];
    assert!(matches!(plan_run(CopyMode::Small, &sources), RunStart::SizeOverflow));
}

#[test]
fn auto_picks_large_for_one_big_file() {
    let sources = vec![missing(), file(200 * 1024 * 1024)];
    match plan_run(CopyMode::Auto, &sources) {
        RunStart::Ready(plan) => {
            assert!(plan.mode == CopyMode::Large);
            assert_eq!(plan.bytes_total, 200 * 1024 * 1024);
            assert_eq!(plan.files_total, 1);
            assert!(plan.files == vec![FilePlan { source: 1, entry: None }]);
        }
        _ => panic!("expected a plan"),
    }
}

#[test]
fn auto_picks_small_at_exactly_100_mib() {
    let sources = vec![file(100 * 1024 * 1024)];
    match plan_run(CopyMode::Auto, &sources) {
        RunStart::Ready(plan) => assert!(plan.mode == CopyMode::Small),
        _ => panic!("expected a plan"),
    }
}

#[test]
fn auto_picks_small_for_a_big_directory() {
    let sources = vec![dir(vec![300 * 1024 * 1024])];
    match plan_run(CopyMode::Auto, &sources) {
        RunStart::Ready(plan) => {
            assert!(plan.mode == CopyMode::Small);
            assert!(plan.files == vec![FilePlan { source: 0, entry: Some(0) }]);
        }
        _ => panic!("expected a plan"),
    }
}

#[test]
fn auto_picks_small_for_two_files() {
    let sources = vec![file(300 * 1024 * 1024), file(1)];
    match plan_run(CopyMode::Auto, &sources) {
        RunStart::Ready(plan) => assert!(plan.mode == CopyMode::Small),
        _ => panic!("expected a plan"),
    }
}

#[test]
fn explicit_modes_stand() {
    let sources = vec![file(1)];
    match plan_run(CopyMode::Large, &sources) {
        RunStart::Ready(plan) => assert!(plan.mode == CopyMode::Large),
        _ => panic!("expected a plan"),
    }
    let big = vec![file(500 * 1024 * 1024)];
    match plan_run(CopyMode::Small, &big) {
        RunStart::Ready(plan) => assert!(plan.mode == CopyMode::Small),
        _ => panic!("expected a plan"),
    }
}

#[test]
fn plan_lists_files_source_after_source() {
    let sources = vec![dir(vec![5, 6]), missing(), file(3), other(), dir(vec![])];
    match plan_run(CopyMode::Small, &sources) {
        RunStart::Ready(plan) => {
            assert!(
                plan.files
                    == vec![
                        FilePlan { source: 0, entry: Some(0) },
                        FilePlan { source: 0, entry: Some(1) },
                        FilePlan { source: 2, entry: None },
                        FilePlan { source: 3, entry: None },
                    ]
            );
            assert_eq!(plan.bytes_total, 14);
            assert_eq!(plan.files_total, 3);
        }
        _ => panic!("expected a plan"),
    }
}

#[test]
fn copy_method_threshold() {
    assert!(copy_method(0) == CopyMethod::WholeFile);
    assert!(copy_method(4 * 1024 * 1024) == CopyMethod::WholeFile);
    assert!(copy_method(4 * 1024 * 1024 + 1) == CopyMethod::Buffered);
}

#[test]
fn remaining_saturates() {
    let mut p = CopyProgress::default();
    p.bytes_total = 100;
    p.bytes_done = 30;
    assert_eq!(p.remaining(), 70);
    p.bytes_done = 130;
    assert_eq!(p.remaining(), 0);
}

#[test]
fn nothing_to_copy_report_is_finished() {
    let p = CopyProgress::nothing_to_copy();
    assert!(p.finished);
    assert!(!p.cancelled);
    assert_eq!(p.bytes_total, 0);
    assert!(p.errors.is_empty());
}

#[test]
fn destination_failure_report() {
    let p = CopyProgress::destination_failed("Permission denied".to_string());
    assert!(p.finished);
    assert_eq!(p.errors, vec![("destination".to_string(), "Permission denied".to_string())]);
}

#[test]
fn large_copy_counts_chunks_and_skips_errors() {
    let mut run = LargeCopy::new(300, 3, 0);
    run.on_chunk(100, 10_000_000);
    let first = run.on_file_done(Ok(()), "a".to_string(), 20_000_000);
    assert!(first.is_none());
    run.on_chunk(50, 60_000_000);
    let second = run.on_file_done(Err("disk full".to_string()), "b".to_string(), 60_000_000);
    let report = second.expect("50 ms passed, a report is due");
    assert_eq!(report.bytes_done, 150);
    assert_eq!(report.files_done, 1);
    assert_eq!(report.current_file, "b");
    assert_eq!(report.errors, vec![("b".to_string(), "disk full".to_string())]);
    assert!(!report.finished && !report.cancelled);
    let rate = report.speed.expect("two samples 50 ms apart");
    assert_eq!(rate.bytes, 150);
    assert_eq!(rate.nanos, 50_000_000);
    assert_eq!(run.last_report, 60_000_000);
    run.on_chunk(150, 70_000_000);
    assert!(run.on_file_done(Ok(()), "c".to_string(), 80_000_000).is_none());
    let done = run.final_report(false, 90_000_000);
    assert!(done.finished && !done.cancelled);
    assert_eq!(done.bytes_done, 300);
    assert_eq!(done.files_done, 2);
    assert_eq!(done.current_file, "");
    assert_eq!(done.elapsed_ns, 90_000_000);
}

#[test]
fn large_copy_cancelled_report() {
    let mut run = LargeCopy::new(300, 3, 0);
    run.on_chunk(100, 10_000_000);
    let p = run.final_report(true, 20_000_000);
    assert!(p.cancelled && !p.finished);
    assert!(p.speed.is_none());
    assert_eq!(p.bytes_done, 100);
}

fn observe(bytes: u64, files: u64, done: bool, cancelled: bool) -> Observation {
    Observation {
        bytes_done: bytes,
        files_done: files,
        current_file: "x".to_string(),
        errors: Vec::new(),
        workers_done: done,
        cancelled,
    }
}

#[test]
fn coordinator_runs_until_workers_finish() {
    let mut c = Coordinator::new(1000, 2);
    let (p, stop) = c.tick(observe(400, 1, false, false), 50_000_000);
    assert!(!stop && !p.finished && !p.cancelled);
    assert!(p.speed.is_none());
    let (p, stop) = c.tick(observe(800, 1, false, false), 100_000_000);
    assert!(!stop);
    let rate = p.speed.expect("two samples");
    assert_eq!(rate.bytes, 800);
    assert_eq!(rate.nanos, 50_000_000);
    // No bytes moved: no sample is added, the speed stays.
    let (p, _) = c.tick(observe(800, 1, false, false), 150_000_000);
    assert_eq!(p.speed.expect("unchanged window").nanos, 50_000_000);
    let (p, stop) = c.tick(observe(1000, 2, true, false), 200_000_000);
    assert!(stop && p.finished && !p.cancelled);
}

#[test]
fn coordinator_stops_with_no_files() {
    let mut c = Coordinator::new(0, 0);
    let (p, stop) = c.tick(observe(0, 0, true, false), 50_000_000);
    assert!(stop && p.finished);
}

#[test]
fn coordinator_stops_when_cancelled() {
    let mut c = Coordinator::new(1000, 2);
    let (p, stop) = c.tick(observe(10, 0, true, true), 50_000_000);
    assert!(stop && p.cancelled && !p.finished);
}

#[test]
fn speed_window_drops_old_samples() {
    let mut t = SpeedTracker::new();
    assert!(t.speed().is_none());
    t.add(0, 100);
    assert!(t.speed().is_none());
    t.add(1_000_000_000, 100);
    let r = t.speed().expect("two samples");
    assert_eq!((r.bytes, r.nanos), (200, 1_000_000_000));
    t.add(2_500_000_000, 100);
    let r = t.speed().expect("the first sample is older than two seconds");
    assert_eq!((r.bytes, r.nanos), (200, 1_500_000_000));
    t.add(2_500_000_000, 50);
    let r = t.speed().expect("same window");
    assert_eq!((r.bytes, r.nanos), (250, 1_500_000_000));
}

#[test]
fn speed_zero_when_no_time_passed() {
    let mut t = SpeedTracker::new();
    t.add(5, 100);
    t.add(5, 100);
    assert!(t.speed().is_none());
}

#[test]
fn speed_window_keeps_sample_exactly_two_seconds_old() {
    let mut t = SpeedTracker::new();
    t.add(0, 1);
    t.add(2_000_000_000, 1);
    let r = t.speed().expect("exactly two seconds is still in the window");
    assert_eq!((r.bytes, r.nanos), (2, 2_000_000_000));
}

#[test]
fn chunk_loop_decisions() {
    assert!(next_chunk_step(false, None) == ChunkStep::Read);
    assert!(next_chunk_step(true, None) == ChunkStep::CancelAndRemove);
    assert!(next_chunk_step(false, Some(0)) == ChunkStep::Finish);
    assert!(next_chunk_step(false, Some(4096)) == ChunkStep::WriteAndCount(4096));
    assert!(next_chunk_step(true, Some(4096)) == ChunkStep::WriteAndCount(4096));
    assert_eq!(LARGE_CHUNK_SIZE, 64 * 1024 * 1024);
    assert_eq!(BUFFERED_CHUNK_SIZE, 1024 * 1024);
}

#[test]
fn totals_add_up_over_joined_lists() {
    let a = vec![file(10), dir(vec![1, 2])];
    let b = vec![file(5), other()];
    let mut joined = vec![file(10), dir(vec![1, 2])];
    joined.extend(vec![file(5), other()]);
    let (ab, af) = scan_sources(&a).unwrap();
    let (bb, bf) = scan_sources(&b).unwrap();
    assert_eq!(scan_sources(&joined), Some((ab + bb, af + bf)));
    assert_eq!(scan_sources(&Vec::new()), Some((0, 0)));
    let twice = vec![file(7), file(7)];
    assert_eq!(scan_sources(&twice), Some((14, 2)));
}

#[test]
fn plan_matches_scan_counts() {
    let sources = vec![dir(vec![1, 2, 3]), file(4), other(), missing()];
    match plan_run(CopyMode::Small, &sources) {
        RunStart::Ready(plan) => {
            assert_eq!(plan.files.len() as u64, plan.files_total + 1);
        }
        _ => panic!("expected a plan"),
    }
}

#[test]
fn existing_source_with_fitting_totals_is_ready() {
    let sources = vec![missing(), dir(vec![])];
    assert!(matches!(plan_run(CopyMode::Auto, &sources), RunStart::Ready(_)));
}
