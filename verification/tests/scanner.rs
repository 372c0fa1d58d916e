use fdu::app::App;
use fdu::ranking::SizeEntry;
use fdu::scanner::listing::{
    enters_dir, is_excluded, read_listing, stays_on_system, Entry, EntryKind,
};
use fdu::scanner::{scan, walk_dir, Scan, ScanEvent};
use fdu::state::{snapshot, ScanOptions};

fn options() -> ScanOptions {
    ScanOptions { max_depth: None, exclude: Vec::new(), one_file_system: false, root_dev: 0 }
}

fn start(top_n: usize, files_only: bool, options: ScanOptions) -> Scan {
    Scan::new("/r".to_string(), top_n, files_only, options, '/', Some("/r/home".to_string()))
}

fn file(name: &str, size: u64) -> Entry {
    Entry { name: name.to_string(), kind: EntryKind::File, size, dev: None }
}

fn dir(name: &str) -> Entry {
    Entry { name: name.to_string(), kind: EntryKind::Dir, size: 0, dev: None }
}

fn of_kind(kind: EntryKind) -> Entry {
    Entry { name: "?".to_string(), kind, size: 9, dev: None }
}

fn pairs(list: &[SizeEntry]) -> Vec<(&str, u64)> {
    list.iter().map(|e| (e.path.as_str(), e.size)).collect()
}

#[test]
fn a_listing_adds_up() {
    let entries = vec![
        file("a", 10),
        dir("d"),
        of_kind(EntryKind::Other),
        of_kind(EntryKind::Failed),
        file("b.log", 5),
        dir("node_modules"),
    ];
    let mut options = options();
    options.exclude = vec!["*.log".to_string(), "node_modules".to_string()];
    let listing = read_listing(&"/r".to_string(), &entries, &options, '/');
    assert_eq!(pairs(&listing.files), [("/r/a", 10)]);
    assert_eq!(listing.dirs, [1]);
    assert_eq!(listing.bytes, 10);
    assert_eq!(listing.failed, 1);
}

#[test]
fn names_are_excluded_by_any_pattern() {
    let exclude = vec!["*.log".to_string(), "tmp".to_string()];
    assert!(is_excluded(&exclude, "x.log"));
    assert!(is_excluded(&exclude, "tmp"));
    assert!(!is_excluded(&exclude, "tmp2"));
    assert!(!is_excluded(&Vec::new(), "tmp"));
}

#[test]
fn a_scan_of_two_directories() {
    let mut run = start(3, false, options());
    let subs = walk_dir(
        &mut run,
        0,
        0,
        &vec![file("a", 10), dir("home"), file("b", 7), of_kind(EntryKind::Failed)],
    );
    assert_eq!(subs.len(), 1);
    assert_eq!((subs[0].entry, subs[0].dir, subs[0].depth), (1, 1, 1));
    assert_eq!(run.dirs.nodes[1].path, "/r/home");
    let below = walk_dir(&mut run, subs[0].dir, subs[0].depth, &vec![file("c", 8), file("d", 100)]);
    assert!(below.is_empty());
    assert_eq!(run.state.total_bytes, 125);
    assert_eq!(run.state.file_count, 4);
    assert_eq!(run.state.dir_count, 2);
    assert_eq!(run.state.error_count, 1);
    assert_eq!(run.min_top_size, 8);
    assert_eq!(run.state.lists.current_path, "~/d");
    assert_eq!(
        pairs(&run.state.lists.top_files),
        [("/r/home/d", 100), ("/r/a", 10), ("/r/home/c", 8)]
    );
    assert!(run.state.lists.top_dirs.is_empty());
    assert!(!run.state.done);

    scan(&mut run, &ScanEvent::Finished);
    assert!(run.state.done);
    assert_eq!(pairs(&run.state.lists.top_dirs), [("/r", 125), ("/r/home", 108)]);
    // The root takes everything that was found.
    assert_eq!(run.dirs.nodes[0].size, run.state.total_bytes);
    let files = run.state.lists.dir_files.get(&"/r".to_string()).unwrap();
    assert_eq!(pairs(files), [("/r/home/d", 100), ("/r/a", 10), ("/r/home/c", 8)]);
    let files = run.state.lists.dir_files.get(&"/r/home".to_string()).unwrap();
    assert_eq!(pairs(files), [("/r/home/d", 100), ("/r/home/c", 8)]);
}

#[test]
fn events_of_a_walk() {
    let mut run = start(3, false, options());
    assert!(scan(&mut run, &ScanEvent::Stopped).is_empty());
    assert_eq!(run.state.error_count, 0);
    assert!(scan(&mut run, &ScanEvent::Unreadable).is_empty());
    assert_eq!(run.state.error_count, 1);
    assert_eq!(run.state.dir_count, 0);
    let event = ScanEvent::Listed { dir: 0, depth: 0, entries: vec![dir("x"), dir("y")] };
    let subs = scan(&mut run, &event);
    assert_eq!(subs.iter().map(|s| s.dir).collect::<Vec<_>>(), [1, 2]);
    assert_eq!(run.state.dir_count, 1);
    scan(&mut run, &ScanEvent::Finished);
    assert!(run.state.done);
    // Directories without bytes are not listed.
    assert!(run.state.lists.top_dirs.is_empty());
}

#[test]
fn files_only_leaves_the_directories_out() {
    let mut run = start(3, true, options());
    walk_dir(&mut run, 0, 0, &vec![file("a", 10)]);
    scan(&mut run, &ScanEvent::Finished);
    assert_eq!(run.state.total_bytes, 10);
    assert_eq!(run.state.lists.top_files.len(), 1);
    assert!(run.state.lists.top_dirs.is_empty());
    assert_eq!(run.dirs.nodes[0].size, 0);
    assert!(run.state.lists.dir_files.get(&"/r".to_string()).is_none());
}

#[test]
fn a_scan_goes_no_deeper_than_allowed() {
    let mut limited = options();
    limited.max_depth = Some(1);
    let mut run = start(3, false, limited);
    let subs = walk_dir(&mut run, 0, 0, &vec![dir("x")]);
    assert_eq!(subs.len(), 1);
    assert!(walk_dir(&mut run, subs[0].dir, subs[0].depth, &vec![dir("y")]).is_empty());

    let mut flat = options();
    flat.max_depth = Some(0);
    let mut run = start(3, false, flat);
    assert!(walk_dir(&mut run, 0, 0, &vec![dir("x"), file("f", 2)]).is_empty());
    assert_eq!(run.state.total_bytes, 2);
}

#[test]
fn a_scan_stays_on_its_file_system() {
    let entries = || {
        vec![
            Entry { name: "same".to_string(), kind: EntryKind::Dir, size: 0, dev: Some(5) },
            Entry { name: "mounted".to_string(), kind: EntryKind::Dir, size: 0, dev: Some(6) },
            Entry { name: "unknown".to_string(), kind: EntryKind::Dir, size: 0, dev: None },
        ]
    };
    let mut one = options();
    one.one_file_system = true;
    one.root_dev = 5;
    let mut run = start(3, false, one);
    let subs = walk_dir(&mut run, 0, 0, &entries());
    assert_eq!(subs.iter().map(|s| s.entry).collect::<Vec<_>>(), [0, 2]);
    let mut run = start(3, false, options());
    assert_eq!(walk_dir(&mut run, 0, 0, &entries()).len(), 3);
}

#[test]
fn passing_files_over_loses_nothing_once_the_list_is_full() {
    let mut run = start(2, true, options());
    walk_dir(&mut run, 0, 0, &vec![file("a", 5), file("b", 9), file("c", 1)]);
    walk_dir(&mut run, 0, 0, &vec![file("d", 5), file("e", 6), file("f", 4)]);
    assert_eq!(pairs(&run.state.lists.top_files), [("/r/b", 9), ("/r/e", 6)]);
    assert_eq!(run.min_top_size, 6);
}

#[test]
fn every_file_is_offered_before_the_list_is_full() {
    let mut run = start(2, true, options());
    walk_dir(&mut run, 0, 0, &vec![file("a", 1000)]);
    walk_dir(&mut run, 0, 0, &vec![file("b", 1), file("c", 100)]);
    assert_eq!(pairs(&run.state.lists.top_files), [("/r/a", 1000), ("/r/c", 100)]);

    let mut run = start(3, false, options());
    let subs = walk_dir(&mut run, 0, 0, &vec![file("a", 100), dir("d")]);
    walk_dir(&mut run, subs[0].dir, 1, &vec![file("x", 50), file("y", 40), file("z", 60)]);
    assert_eq!(
        pairs(&run.state.lists.top_files),
        [("/r/a", 100), ("/r/d/z", 60), ("/r/d/x", 50)]
    );
}

#[test]
fn a_list_of_no_files_stays_empty() {
    let mut run = start(0, false, options());
    walk_dir(&mut run, 0, 0, &vec![file("a", 1000), file("b", 0)]);
    scan(&mut run, &ScanEvent::Finished);
    assert!(run.state.lists.top_files.is_empty());
    assert!(run.state.lists.top_dirs.is_empty());
    assert_eq!((run.state.file_count, run.min_top_size), (2, 0));
}

#[test]
fn files_of_subdirectories_are_collected_with_any_separator() {
    let mut run = Scan::new("C:\\r".to_string(), 2, false, options(), '\\', None);
    let subs = walk_dir(&mut run, 0, 0, &vec![dir("a")]);
    walk_dir(&mut run, subs[0].dir, 1, &vec![file("x", 20)]);
    scan(&mut run, &ScanEvent::Finished);
    let files = run.state.lists.dir_files.get(&"C:\\r".to_string()).unwrap();
    assert_eq!(pairs(files), [("C:\\r\\a\\x", 20)]);
}

#[test]
fn the_lists_of_directories_are_updated_now_and_then() {
    let mut run = start(3, false, options());
    for round in 1..=501u64 {
        walk_dir(&mut run, 0, 0, &vec![file("a", 1)]);
        assert_eq!(run.dirs_processed, round);
        assert_eq!(run.state.lists.top_dirs.len(), if round == 501 { 1 } else { 0 });
    }
    assert_eq!(pairs(&run.state.lists.top_dirs), [("/r", 501)]);
    // A directory without bytes does not count for that.
    walk_dir(&mut run, 0, 0, &vec![file("empty", 0)]);
    assert_eq!(run.dirs_processed, 501);
}

#[test]
fn a_deletion_may_come_between_two_steps() {
    let mut run = start(3, false, options());
    let subs = walk_dir(&mut run, 0, 0, &vec![file("a", 10), dir("d")]);
    walk_dir(&mut run, subs[0].dir, 1, &vec![file("x", 50)]);
    scan(&mut run, &ScanEvent::Finished);
    let mut app = App::new(false);
    app.on_deleted(&mut run.state.lists, &"/r/d".to_string(), true);
    assert_eq!(pairs(&run.state.lists.top_files), [("/r/a", 10)]);
    assert_eq!(pairs(&run.state.lists.top_dirs), [("/r", 60)]);
    assert!(run.state.lists.dir_files.get(&"/r/d".to_string()).is_none());
    walk_dir(&mut run, 0, 0, &vec![file("z", 70)]);
    assert_eq!(pairs(&run.state.lists.top_files), [("/r/z", 70), ("/r/a", 10)]);
}

#[test]
fn a_snapshot_copies_what_was_found() {
    let mut run = start(3, false, options());
    walk_dir(&mut run, 0, 0, &vec![file("a", 10)]);
    scan(&mut run, &ScanEvent::Finished);
    let data = snapshot(&run.state);
    assert_eq!(pairs(&data.top_files), [("/r/a", 10)]);
    assert_eq!(pairs(&data.top_dirs), [("/r", 10)]);
    assert_eq!(data.dir_files.get(&"/r".to_string()).unwrap().len(), 1);
    assert_eq!((data.total_bytes, data.file_count, data.dir_count, data.error_count), (10, 1, 1, 0));
    assert!(data.done);
}

#[test]
fn a_scan_tells_what_it_can_take() {
    let listed = |dir, entries| ScanEvent::Listed { dir, depth: 0, entries };
    let mut run = start(3, false, options());
    assert!(run.accepts(&ScanEvent::Finished));
    assert!(!run.accepts(&listed(1, Vec::new())));
    assert!(!run.accepts(&ScanEvent::Listed { dir: 0, depth: usize::MAX, entries: Vec::new() }));
    assert!(!run.accepts(&listed(0, vec![file("a", u64::MAX), file("b", 1)])));
    let event = listed(0, vec![file("a", u64::MAX)]);
    assert!(run.accepts(&event));
    scan(&mut run, &event);
    assert!(!run.accepts(&listed(0, vec![file("b", 1)])));
    assert!(run.accepts(&listed(0, vec![file("b", 0)])));
}

#[test]
fn the_largest_of_all_files_are_listed() {
    for top_n in [1, 2, 5, 17, 1000] {
        let mut run = start(top_n, true, options());
        let mut all: Vec<(String, u64)> = Vec::new();
        let mut seed: u64 = 12345;
        let mut waiting = vec![(0, 0)];
        for round in 0..40 {
            let (number, depth) = waiting.pop().unwrap();
            let path = run.dirs.nodes[number].path.clone();
            let mut entries = vec![dir("d"), dir("e")];
            for i in 0..round % 5 {
                seed = seed.wrapping_mul(6364136223846793005).wrapping_add(1442695040888963407);
                let name = format!("{}", i);
                all.push((format!("{}/{}", path, name), seed >> 40));
                entries.push(file(&name, seed >> 40));
            }
            let event = ScanEvent::Listed { dir: number, depth, entries };
            waiting.extend(scan(&mut run, &event).iter().map(|s| (s.dir, s.depth)));
            all.sort_by(|a, b| b.1.cmp(&a.1));
            let listed: Vec<(String, u64)> =
                run.state.lists.top_files.iter().map(|e| (e.path.clone(), e.size)).collect();
            assert_eq!(listed, all[..top_n.min(all.len())]);
        }
    }
}

#[test]
fn a_directory_is_entered_on_its_file_system() {
    let mut one = options();
    one.one_file_system = true;
    one.root_dev = 5;
    assert!(stays_on_system(Some(5), &one) && stays_on_system(None, &one));
    assert!(!stays_on_system(Some(6), &one));
    assert!(stays_on_system(Some(6), &options()));
}

#[test]
fn a_directory_is_entered_no_deeper_than_allowed() {
    let mut limited = options();
    limited.max_depth = Some(2);
    assert!(enters_dir(2, None, &limited) && !enters_dir(3, None, &limited));
    assert!(enters_dir(usize::MAX, None, &options()));
    limited.one_file_system = true;
    limited.root_dev = 1;
    assert!(!enters_dir(0, Some(2), &limited));
}

#[test]
fn a_whole_scan_adds_up_in_any_order() {
    let listing = |path: &str| match path {
        "/r" => vec![file("a", 1), dir("x"), dir("y")],
        "/r/x" => vec![file("b", 20), dir("z"), of_kind(EntryKind::Failed)],
        "/r/x/z" => vec![file("c", 300), file("d", 4000)],
        _ => vec![file("e", 0)],
    };
    for newest_first in [true, false] {
        let mut run = start(10, false, options());
        let mut waiting = vec![(0, 0)];
        while !waiting.is_empty() {
            let at = if newest_first { waiting.len() - 1 } else { 0 };
            let (number, depth) = waiting.remove(at);
            let entries = listing(&run.dirs.nodes[number].path);
            let event = ScanEvent::Listed { dir: number, depth, entries };
            waiting.extend(scan(&mut run, &event).iter().map(|s| (s.dir, s.depth)));
        }
        scan(&mut run, &ScanEvent::Finished);
        assert_eq!((run.state.dir_count, run.state.file_count), (4, 5));
        assert_eq!((run.state.total_bytes, run.state.error_count), (4321, 1));
        assert_eq!(
            pairs(&run.state.lists.top_dirs),
            [("/r", 4321), ("/r/x", 4320), ("/r/x/z", 4300)]
        );
        let mut paths: Vec<&str> =
            run.state.lists.top_files.iter().map(|e| e.path.as_str()).collect();
        paths.sort();
        assert_eq!(paths, ["/r/a", "/r/x/b", "/r/x/z/c", "/r/x/z/d", "/r/y/e"]);
    }
}
