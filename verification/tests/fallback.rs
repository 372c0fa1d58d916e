use fdu::ranking::SizeEntry;
use fdu::scanner::fallback::{scan, BatchScan, WalkEvent, BATCH_SIZE};

fn pairs(list: &[SizeEntry]) -> Vec<(&str, u64)> {
    list.iter().map(|e| (e.path.as_str(), e.size)).collect()
}

fn file(dir: usize, path: &str, size: u64) -> WalkEvent {
    WalkEvent::File { dir, path: path.to_string(), size }
}

fn start(top_n: usize, files_only: bool) -> BatchScan {
    let mut run = BatchScan::new(top_n, files_only, '/', Some("/r/home".to_string()));
    assert_eq!(run.add_dir("/r".to_string(), None), 0);
    assert_eq!(run.add_dir("/r/home".to_string(), Some(0)), 1);
    run
}

#[test]
fn a_batch_is_taken_in_at_the_end() {
    let mut run = start(2, false);
    for event in [
        WalkEvent::Dir,
        file(0, "/r/a", 5),
        WalkEvent::Failed,
        WalkEvent::Other,
        file(1, "/r/home/b", 9),
        file(1, "/r/home/c", 7),
    ] {
        scan(&mut run, &event);
    }
    assert_eq!(run.state.file_count, 0);
    assert_eq!((run.batch_files, run.batch_dirs, run.batch_errors, run.batch_bytes), (3, 1, 1, 21));
    assert_eq!(run.last_path, "/r/home/c");
    scan(&mut run, &WalkEvent::Finished);
    assert!(run.state.done);
    assert_eq!(run.state.file_count, 3);
    assert_eq!(run.state.total_bytes, 21);
    assert_eq!((run.state.dir_count, run.state.error_count), (1, 1));
    assert_eq!(pairs(&run.state.lists.top_files), [("/r/home/b", 9), ("/r/home/c", 7)]);
    assert_eq!(pairs(&run.state.lists.top_dirs), [("/r", 21), ("/r/home", 16)]);
    // Only a full batch says where the walk is.
    assert_eq!(run.state.lists.current_path, "");
    assert!(run.state.lists.dir_files.get(&"/r".to_string()).is_none());
}

#[test]
fn a_full_batch_is_taken_in() {
    let mut run = start(2, false);
    for i in 0..BATCH_SIZE {
        assert_eq!(run.state.file_count, 0);
        scan(&mut run, &file(1, &format!("/r/home/{}", i), i));
    }
    assert_eq!(run.state.file_count, BATCH_SIZE);
    assert_eq!(run.batch_files, 0);
    assert_eq!(run.state.lists.current_path, format!("~/{}", BATCH_SIZE - 1));
    assert_eq!(run.min_top_size, BATCH_SIZE - 2);
    assert!(run.state.lists.top_dirs.is_empty());
    assert!(run.list_was_full);
    // What is no larger than the smallest of a full list is passed over, but for the first.
    for size in [1, 1, 5000, 1, 3000] {
        scan(&mut run, &file(0, &format!("/r/{}", size), size));
    }
    assert_eq!(run.batch.len(), 4);
    scan(&mut run, &WalkEvent::Finished);
    assert_eq!(pairs(&run.state.lists.top_files), [("/r/5000", 5000), ("/r/3000", 3000)]);
    assert_eq!(run.state.file_count, BATCH_SIZE + 5);
}

#[test]
fn directories_fill_a_batch_too() {
    let mut run = start(2, false);
    for _ in 0..BATCH_SIZE {
        assert_eq!(run.state.dir_count, 0);
        scan(&mut run, &WalkEvent::Dir);
    }
    assert_eq!(run.state.dir_count, BATCH_SIZE);
    assert_eq!(run.state.lists.current_path, "");
}

#[test]
fn directories_are_listed_after_ten_thousand_files() {
    let mut run = start(2, false);
    for i in 1..=11_000u64 {
        scan(&mut run, &file(0, "/r/f", 1));
        // The batch that reaches ten thousand files ends with file 10240.
        assert_eq!(run.state.lists.top_dirs.is_empty(), i < 10_240);
    }
    assert_eq!(pairs(&run.state.lists.top_dirs), [("/r", 10_240)]);
    assert_eq!(run.last_dir_update, 10_240);
}

#[test]
fn files_only_counts_no_directories() {
    let mut run = BatchScan::new(2, true, '/', None);
    scan(&mut run, &file(0, "/r/a", 5));
    scan(&mut run, &WalkEvent::Finished);
    assert_eq!(pairs(&run.state.lists.top_files), [("/r/a", 5)]);
    assert!(run.state.lists.top_dirs.is_empty());
    assert_eq!(run.state.total_bytes, 5);
}

#[test]
fn directories_with_nothing_in_their_files_are_listed() {
    let mut run = start(5, false);
    scan(&mut run, &file(1, "/r/home/empty", 0));
    scan(&mut run, &WalkEvent::Finished);
    assert_eq!(run.state.lists.top_dirs.len(), 2);
    assert_eq!(run.state.lists.top_dirs[0].size, 0);
}

#[test]
fn a_walk_tells_what_it_can_take() {
    let mut run = start(2, false);
    assert!(run.accepts(&WalkEvent::Dir) && run.accepts(&WalkEvent::Failed));
    assert!(!run.accepts(&file(2, "/x", 1)));
    assert!(BatchScan::new(2, true, '/', None).accepts(&file(2, "/x", 1)));
    scan(&mut run, &file(0, "/r/a", u64::MAX));
    assert!(!run.accepts(&file(0, "/r/b", 1)));
    assert!(run.accepts(&file(0, "/r/b", 0)));
}

#[test]
fn every_file_is_offered_until_the_list_is_full() {
    let mut run = start(2, true);
    scan(&mut run, &file(0, "/r/a", 1000));
    for _ in 0..BATCH_SIZE {
        scan(&mut run, &WalkEvent::Dir);
    }
    assert_eq!(run.min_top_size, 1000);
    assert!(!run.list_was_full);
    for (path, size) in [("/r/b", 1), ("/r/c", 2), ("/r/d", 500)] {
        scan(&mut run, &file(0, path, size));
    }
    scan(&mut run, &WalkEvent::Finished);
    assert_eq!(pairs(&run.state.lists.top_files), [("/r/a", 1000), ("/r/d", 500)]);
}

#[test]
fn a_walk_lists_the_largest_of_all_files() {
    for top_n in [0, 1, 3, 2000] {
        let mut run = start(top_n, true);
        let mut sizes: Vec<u64> = Vec::new();
        let mut seed: u64 = 99;
        for _ in 0..5000 {
            seed = seed.wrapping_mul(6364136223846793005).wrapping_add(1442695040888963407);
            sizes.push(seed >> 30);
            scan(&mut run, &file(0, "/r/f", seed >> 30));
            if seed % 3 == 0 {
                scan(&mut run, &WalkEvent::Dir);
            }
        }
        scan(&mut run, &WalkEvent::Finished);
        sizes.sort_by(|a, b| b.cmp(a));
        let listed: Vec<u64> = run.state.lists.top_files.iter().map(|e| e.size).collect();
        assert_eq!(listed, sizes[..top_n]);
    }
}

#[test]
fn the_first_files_of_a_batch_are_offered_whatever_their_size() {
    let mut run = start(1, true);
    for i in 0..BATCH_SIZE {
        scan(&mut run, &file(0, &format!("/r/{}", i), 7));
    }
    assert_eq!(run.state.lists.top_files[0].size, 7);
    // None of these is larger than the one listed, but the walk shows where it is, and a file of
    // the same size takes its place.
    for i in 0..BATCH_SIZE {
        scan(&mut run, &file(0, &format!("/r/home/{}", i), 7));
    }
    assert_eq!(run.state.lists.current_path, format!("~/{}", BATCH_SIZE - 1));
    assert_eq!(pairs(&run.state.lists.top_files), [("/r/home/0", 7)]);
}
