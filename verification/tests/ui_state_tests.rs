use fast_copy::engine::{CopyMode, CopyProgress};
use fast_copy::paths::SourcePath;
use fast_copy::ui_state::{AppState, Fraction, StatusTone};

/// A path as the app hands it over: its bytes and its components.
fn sp(path: &str) -> SourcePath {
    let std_path = std::path::Path::new(path);
    SourcePath {
        path: path.as_bytes().to_vec(),
        key: std_path
            .components()
            .map(|c| c.as_os_str().as_encoded_bytes().to_vec())
            .collect(),
    }
}

fn listed_paths(s: &AppState) -> Vec<String> {
    s.sources().iter().map(|p| String::from_utf8(p.path.clone()).unwrap()).collect()
}

fn ready_state() -> AppState {
    let mut s = AppState::new();
    s.add_source(sp("/data/photos"));
    s.set_destination("/backup".to_string());
    s
}

#[test]
fn new_state_is_empty() {
    let s = AppState::new();
    assert!(s.sources().is_empty());
    assert_eq!(s.destination(), "");
    assert!(s.mode() == CopyMode::Auto);
    assert!(!s.is_running());
    assert!(!s.can_start());
    assert_eq!(s.status_message(), "");
}

#[test]
fn add_source_ignores_duplicates() {
    let mut s = AppState::new();
    s.add_source(sp("/a"));
    s.add_source(sp("/b"));
    s.add_source(sp("/a"));
    assert_eq!(listed_paths(&s), vec!["/a".to_string(), "/b".to_string()]);
}

#[test]
fn add_source_compares_paths_by_components() {
    let mut s = AppState::new();
    s.add_source(sp("/data/x"));
    s.add_source(sp("/data/x/"));
    s.add_source(sp("/data//x"));
    assert_eq!(listed_paths(&s), vec!["/data/x".to_string()]);
    s.add_source(sp("/data/y"));
    assert_eq!(s.sources().len(), 2);
}

#[test]
fn start_needs_sources_and_destination() {
    let mut s = AppState::new();
    assert!(s.start_copy().is_none());
    s.add_source(sp("/a"));
    assert!(s.start_copy().is_none());
    s.set_destination("/dst".to_string());
    s.set_mode(CopyMode::Large);
    let job = s.start_copy().expect("can start");
    assert_eq!(job.sources, vec![b"/a".to_vec()]);
    assert_eq!(job.destination, "/dst");
    assert!(job.mode == CopyMode::Large);
    assert!(s.is_running());
    assert_eq!(s.status_message(), "Copying\u{2026}");
    // No second copy while one runs.
    assert!(s.start_copy().is_none());
}

#[test]
fn finished_without_errors() {
    let mut s = ready_state();
    s.start_copy().unwrap();
    let mut p = CopyProgress::default();
    p.finished = true;
    p.files_done = 42;
    p.bytes_done = 1536 * 1024;
    s.apply_progress(p);
    assert!(!s.is_running());
    assert_eq!(s.status_message(), "Done \u{2014} 42 files, 1.5 MB");
    assert!(!s.error_window_open());
    assert!(s.status_tone() == StatusTone::Done);
}

#[test]
fn finished_with_errors_opens_error_list() {
    let mut s = ready_state();
    s.start_copy().unwrap();
    let mut p = CopyProgress::default();
    p.finished = true;
    p.errors = vec![("a".to_string(), "denied".to_string()), ("b".to_string(), "gone".to_string())];
    s.apply_progress(p);
    assert_eq!(s.status_message(), "Done with 2 error(s)");
    assert!(s.error_window_open());
    assert!(s.status_tone() == StatusTone::Error);
    s.set_error_window_open(false);
    assert!(!s.error_window_open());
}

#[test]
fn cancelled_report_stops_copy() {
    let mut s = ready_state();
    s.start_copy().unwrap();
    let mut p = CopyProgress::default();
    p.cancelled = true;
    s.apply_progress(p);
    assert!(!s.is_running());
    assert_eq!(s.status_message(), "Cancelled.");
    assert!(s.status_tone() == StatusTone::Busy);
}

#[test]
fn running_report_keeps_status() {
    let mut s = ready_state();
    s.start_copy().unwrap();
    let mut p = CopyProgress::default();
    p.bytes_done = 10;
    p.bytes_total = 100;
    s.apply_progress(p);
    assert!(s.is_running());
    assert_eq!(s.status_message(), "Copying\u{2026}");
    assert_eq!(s.progress().bytes_done, 10);
    assert!(s.status_tone() == StatusTone::Busy);
}

#[test]
fn bar_never_goes_back() {
    let mut s = ready_state();
    s.start_copy().unwrap();
    let mut p = CopyProgress::default();
    p.bytes_total = 100;
    p.bytes_done = 60;
    s.apply_progress(p);
    assert!(s.update_bar() == Fraction { num: 60, den: 100 });
    let mut q = CopyProgress::default();
    q.bytes_total = 100;
    q.bytes_done = 30;
    s.apply_progress(q);
    assert!(s.update_bar() == Fraction { num: 60, den: 100 });
    let mut r = CopyProgress::default();
    r.bytes_total = 100;
    r.bytes_done = 150;
    s.apply_progress(r);
    assert!(s.update_bar() == Fraction { num: 1, den: 1 });
}

#[test]
fn bar_stays_empty_without_total() {
    let mut s = ready_state();
    assert!(s.update_bar() == Fraction { num: 0, den: 1 });
}

#[test]
fn selection_toggles_and_removes() {
    let mut s = AppState::new();
    s.add_source(sp("/a"));
    s.add_source(sp("/b"));
    s.add_source(sp("/c"));
    assert!(!s.can_remove());
    s.click_source(1);
    assert_eq!(s.selected_source(), Some(1));
    s.click_source(1);
    assert_eq!(s.selected_source(), None);
    s.click_source(1);
    assert!(s.can_remove());
    s.remove_selected();
    assert_eq!(listed_paths(&s), vec!["/a".to_string(), "/c".to_string()]);
    assert_eq!(s.selected_source(), None);
    s.remove_selected();
    assert_eq!(s.sources().len(), 2);
}
