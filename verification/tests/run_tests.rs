use fast_copy::engine::{
    plan_run, small_file_done, CopyMode, FilePlan, LargeCopy, LargeEvent, RunStart,
    ScannedSource, SourceKind,
};
use fast_copy::paths::{dest_key, SourcePath};

fn sp(path: &str) -> SourcePath {
    SourcePath {
        path: path.as_bytes().to_vec(),
        key: std::path::Path::new(path)
            .components()
            .map(|c| c.as_os_str().as_encoded_bytes().to_vec())
            .collect(),
    }
}

fn key_text(key: &[Vec<u8>]) -> Vec<String> {
    key.iter().map(|c| String::from_utf8(c.clone()).unwrap()).collect()
}

#[test]
fn destination_of_a_file_source() {
    let dest = sp("/backup");
    let key = dest_key(&dest.key, &Some(b"a.txt".to_vec()), &sp("/data/a.txt"), None).unwrap();
    assert_eq!(key_text(&key), vec!["/", "backup", "a.txt"]);
}

#[test]
fn destination_of_a_file_in_a_directory() {
    let dest = sp("/backup");
    let file = sp("/data/photos/2024/x.jpg");
    let key =
        dest_key(&dest.key, &Some(b"photos".to_vec()), &sp("/data/photos/"), Some(&file)).unwrap();
    assert_eq!(key_text(&key), vec!["/", "backup", "photos", "2024", "x.jpg"]);
}

#[test]
fn destination_without_a_source_name() {
    let dest = sp("out");
    let file = sp("./x/y");
    let key = dest_key(&dest.key, &None, &sp("."), Some(&file)).unwrap();
    assert_eq!(key_text(&key), vec!["out", "x", "y"]);
}

#[test]
fn destination_needs_the_file_below_the_source() {
    let dest = sp("/backup");
    let file = sp("/elsewhere/x");
    assert!(dest_key(&dest.key, &Some(b"d".to_vec()), &sp("/data/d"), Some(&file)).is_none());
}

#[test]
fn files_of_one_directory_land_apart() {
    let dest = sp("/b");
    let src = sp("/d");
    let a = dest_key(&dest.key, &Some(b"d".to_vec()), &src, Some(&sp("/d/x"))).unwrap();
    let b = dest_key(&dest.key, &Some(b"d".to_vec()), &src, Some(&sp("/d/y"))).unwrap();
    assert_ne!(a, b);
}

#[test]
fn large_run_reports_in_order() {
    let mut run = LargeCopy::new(300, 2, 0);
    assert!(run.step(LargeEvent::BeforeFile(false), 1).is_none());
    assert!(run.step(LargeEvent::Chunk(100), 10_000_000).is_none());
    let first = run
        .step(LargeEvent::FileDone(Ok(()), "a".to_string()), 60_000_000)
        .expect("report due");
    assert_eq!((first.bytes_done, first.files_done, first.bytes_total), (100, 1, 300));
    assert!(!first.finished && !first.cancelled);
    assert!(run.step(LargeEvent::BeforeFile(false), 60_000_001).is_none());
    assert!(run.step(LargeEvent::Chunk(200), 70_000_000).is_none());
    assert!(run
        .step(LargeEvent::FileDone(Err("bad".to_string()), "b".to_string()), 80_000_000)
        .is_none());
    let last = run.step(LargeEvent::End(false), 90_000_000).expect("last report");
    assert!(last.finished && !last.cancelled);
    assert_eq!((last.bytes_done, last.files_done), (300, 1));
    assert_eq!(last.errors, vec![("b".to_string(), "bad".to_string())]);
}

#[test]
fn large_run_stops_on_cancel_before_a_file() {
    let mut run = LargeCopy::new(300, 2, 0);
    let report = run.step(LargeEvent::BeforeFile(true), 5).expect("cancelled report");
    assert!(report.cancelled && !report.finished);
    assert_eq!((report.bytes_done, report.files_done), (0, 0));
    assert!(report.errors.is_empty());
}

#[test]
fn many_files_count_failures_as_done() {
    assert_eq!(small_file_done(Ok(()), "a".to_string()), (1, None));
    assert_eq!(
        small_file_done(Err("denied".to_string()), "b".to_string()),
        (1, Some(("b".to_string(), "denied".to_string())))
    );
}

#[test]
fn missing_sources_change_nothing() {
    let file = |size: u64| ScannedSource { kind: SourceKind::File, size, dir_file_sizes: Vec::new() };
    let missing = || ScannedSource { kind: SourceKind::Missing, size: 0, dir_file_sizes: Vec::new() };
    let with_missing = vec![missing(), file(200 * 1024 * 1024), missing()];
    let without = vec![file(200 * 1024 * 1024)];
    match (plan_run(CopyMode::Auto, &with_missing), plan_run(CopyMode::Auto, &without)) {
        (RunStart::Ready(a), RunStart::Ready(b)) => {
            assert_eq!((a.bytes_total, a.files_total), (b.bytes_total, b.files_total));
            assert!(a.mode == b.mode && a.mode == CopyMode::Large);
            assert!(a.files == vec![FilePlan { source: 1, entry: None }]);
            assert!(b.files == vec![FilePlan { source: 0, entry: None }]);
        }
        _ => panic!("expected plans"),
    }
}
