use fast_copy::browser::{sort_listing, BrowseEntry, Browser};
use fast_copy::paths::SourcePath;

fn sp(path: &str) -> SourcePath {
    SourcePath {
        path: path.as_bytes().to_vec(),
        key: std::path::Path::new(path)
            .components()
            .map(|c| c.as_os_str().as_encoded_bytes().to_vec())
            .collect(),
    }
}

fn entry(dir: &str, name: &str, is_dir: bool) -> BrowseEntry {
    BrowseEntry {
        name: name.as_bytes().to_vec(),
        is_dir,
        path: sp(&format!("{}/{}", dir, name)),
    }
}

fn names(b: &Browser) -> Vec<String> {
    b.listing()
        .iter()
        .map(|e| String::from_utf8(e.name.clone()).unwrap())
        .collect()
}

fn checked_paths(v: &[SourcePath]) -> Vec<String> {
    v.iter().map(|p| String::from_utf8(p.path.clone()).unwrap()).collect()
}

#[test]
fn folders_first_then_files_by_name() {
    let sorted = sort_listing(vec![
        entry("/d", "zeta.txt", false),
        entry("/d", "beta", true),
        entry("/d", "alpha.txt", false),
        entry("/d", "Alpha", true),
        entry("/d", "alp", false),
    ]);
    let got: Vec<(String, bool)> = sorted
        .iter()
        .map(|e| (String::from_utf8(e.name.clone()).unwrap(), e.is_dir))
        .collect();
    assert_eq!(
        got,
        vec![
            ("Alpha".to_string(), true),
            ("beta".to_string(), true),
            ("alp".to_string(), false),
            ("alpha.txt".to_string(), false),
            ("zeta.txt".to_string(), false),
        ]
    );
}

#[test]
fn checks_stay_across_folders() {
    let mut b = Browser::new();
    b.show(vec![entry("/a", "x", false), entry("/a", "sub", true)]);
    assert_eq!(names(&b), vec!["sub".to_string(), "x".to_string()]);
    b.toggle(1);
    assert!(b.is_checked(1));
    b.show(vec![entry("/b", "y", false)]);
    assert!(!b.is_checked(0));
    b.toggle(0);
    assert_eq!(b.checked_count(), 2);
    b.show(vec![entry("/a", "x", false), entry("/a", "sub", true)]);
    assert!(b.is_checked(1));
    assert!(!b.is_checked(0));
    let taken = b.take_checked();
    assert_eq!(checked_paths(&taken), vec!["/a/x".to_string(), "/b/y".to_string()]);
    assert_eq!(b.checked_count(), 0);
}

#[test]
fn toggle_twice_unchecks() {
    let mut b = Browser::new();
    b.show(vec![entry("/a", "x", false)]);
    b.toggle(0);
    b.toggle(0);
    assert!(!b.is_checked(0));
    assert_eq!(b.checked_count(), 0);
}

#[test]
fn select_all_and_clear_all_act_on_the_folder_shown() {
    let mut b = Browser::new();
    b.show(vec![entry("/b", "y", false)]);
    b.toggle(0);
    b.show(vec![entry("/a", "x", false), entry("/a", "w", false), entry("/a", "d", true)]);
    b.toggle(2);
    b.select_all();
    assert_eq!(b.checked_count(), 4);
    b.clear_all();
    assert_eq!(b.checked_count(), 1);
    assert_eq!(checked_paths(&b.take_checked()), vec!["/b/y".to_string()]);
}
