use fdu::ranking::SizeEntry;
use fdu::state::{cut_entries, Cut, DirFiles, ScanLists, ScanState};

fn entry(path: &str, size: u64) -> SizeEntry {
    SizeEntry { path: path.to_string(), size }
}

fn paths(list: &[SizeEntry]) -> Vec<&str> {
    list.iter().map(|e| e.path.as_str()).collect()
}

fn lists() -> ScanLists {
    let mut dir_files = DirFiles::new();
    dir_files.insert("/r".to_string(), vec![entry("/r/d/x", 9), entry("/r/y", 3)]);
    dir_files.insert("/r/d".to_string(), vec![entry("/r/d/x", 9)]);
    dir_files.insert("/r/d2".to_string(), vec![entry("/r/d2/z", 1)]);
    ScanLists {
        top_files: vec![entry("/r/d/x", 9), entry("/r/y", 3), entry("/r/d2/z", 1)],
        top_dirs: vec![entry("/r", 13), entry("/r/d", 9), entry("/r/d/e", 4), entry("/r/d2", 1)],
        dir_files,
        current_path: "/r/y".to_string(),
    }
}

#[test]
fn a_new_scan_has_found_nothing() {
    let state = ScanState::new();
    assert!(state.lists.top_files.is_empty());
    assert!(state.lists.top_dirs.is_empty());
    assert_eq!(state.lists.current_path, "");
    assert_eq!((state.total_bytes, state.file_count, state.dir_count, state.error_count), (0, 0, 0, 0));
    assert!(!state.done);
}

#[test]
fn files_are_listed_by_directory() {
    let mut files = DirFiles::new();
    assert!(files.get(&"/r".to_string()).is_none());
    files.insert("/r".to_string(), vec![entry("/r/a", 1)]);
    files.insert("/s".to_string(), vec![entry("/s/b", 2), entry("/s/c", 1)]);
    assert_eq!(paths(files.get(&"/r".to_string()).unwrap()), ["/r/a"]);
    files.insert("/r".to_string(), Vec::new());
    assert!(files.get(&"/r".to_string()).unwrap().is_empty());
    let copy = files.copy();
    files.cut_dirs(&"/s".to_string());
    assert!(files.get(&"/s".to_string()).is_none());
    assert_eq!(paths(copy.get(&"/s".to_string()).unwrap()), ["/s/b", "/s/c"]);
}

#[test]
fn a_cut_takes_out_what_it_says() {
    let list = vec![entry("/a", 4), entry("/a/b", 3), entry("/ab", 2), entry("/a/b/c", 1)];
    let at = "/a".to_string();
    assert_eq!(paths(&cut_entries(&list, &Cut::Path, &at)), ["/a/b", "/ab", "/a/b/c"]);
    assert_eq!(paths(&cut_entries(&list, &Cut::Below, &at)), ["/a", "/ab"]);
    assert_eq!(paths(&cut_entries(&list, &Cut::Tree, &at)), ["/ab"]);
}

#[test]
fn a_deleted_directory_is_forgotten() {
    let mut lists = lists();
    lists.forget_dir(&"/r/d".to_string());
    assert_eq!(paths(&lists.top_dirs), ["/r", "/r/d2"]);
    assert_eq!(paths(&lists.top_files), ["/r/y", "/r/d2/z"]);
    assert!(lists.dir_files.get(&"/r/d".to_string()).is_none());
    assert!(lists.dir_files.get(&"/r/d2".to_string()).is_some());
    // The list of a directory above keeps the files of the deleted one.
    assert_eq!(paths(lists.dir_files.get(&"/r".to_string()).unwrap()), ["/r/d/x", "/r/y"]);
    assert_eq!(lists.current_path, "/r/y");
}

#[test]
fn a_deleted_file_is_forgotten() {
    let mut lists = lists();
    lists.forget_file(&"/r/d/x".to_string());
    assert_eq!(paths(&lists.top_files), ["/r/y", "/r/d2/z"]);
    assert_eq!(lists.top_dirs.len(), 4);
    assert_eq!(paths(lists.dir_files.get(&"/r".to_string()).unwrap()), ["/r/y"]);
    assert!(lists.dir_files.get(&"/r/d".to_string()).unwrap().is_empty());
}
