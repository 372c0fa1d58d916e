use fdu::ranking::SizeEntry;
use fdu::report::{closing_line, keep_large, report, report_line, summary};
use fdu::state::{DirFiles, FrameData};

fn entry(path: &str, size: u64) -> SizeEntry {
    SizeEntry { path: path.to_string(), size }
}

fn data() -> FrameData {
    FrameData {
        top_files: vec![entry("/home/me/x", 3 << 20), entry("/tmp/y", 1500), entry("/tmp/z", 7)],
        top_dirs: vec![entry("/", 4 << 30), entry("/tmp", 1507)],
        dir_files: DirFiles::new(),
        total_bytes: 4 << 30,
        file_count: 12345,
        dir_count: 67,
        error_count: 0,
        done: true,
    }
}

#[test]
fn the_report_lists_files_and_directories() {
    assert_eq!(
        report(&data(), 0, false, Some("/home/me")),
        "Scanned 12345 files, 67 dirs, 4 GiB total\n\
         \n\
         Largest Files:\n\
         \x20   1.      3 MiB  ~/x\n\
         \x20   2.   1.46 KiB  /tmp/y\n\
         \x20   3.        7 B  /tmp/z\n\
         \n\
         Largest Directories:\n\
         \x20   1.      4 GiB  /\n\
         \x20   2.   1.47 KiB  /tmp\n"
    );
}

#[test]
fn the_report_leaves_out_what_it_is_told_to() {
    assert_eq!(
        report(&data(), 1500, true, None),
        "Scanned 12345 files, 67 dirs, 4 GiB total\n\
         \n\
         Largest Files:\n\
         \x20   1.      3 MiB  /home/me/x\n\
         \x20   2.   1.46 KiB  /tmp/y\n"
    );
}

#[test]
fn lines_are_aligned() {
    assert_eq!(report_line(7, "1 B", "/x"), "    7.        1 B  /x\n");
    assert_eq!(report_line(1234, "1023.99 MiB", "/x"), "  1234. 1023.99 MiB  /x\n");
    assert_eq!(summary(1, 2, "?"), "Scanned 1 files, 2 dirs, ? total");
    assert_eq!(summary(u64::MAX, 0, ""), "Scanned 18446744073709551615 files, 0 dirs,  total");
}

#[test]
fn the_closing_line_has_the_numbers() {
    assert_eq!(closing_line(3, 2, 1023), "\nScanned 3 files, 2 dirs, 1023 B total\n");
    assert_eq!(closing_line(0, 0, 1024), "\nScanned 0 files, 0 dirs, 1 KiB total\n");
}

#[test]
fn only_what_is_large_enough_is_kept() {
    let list = data().top_files;
    assert_eq!(keep_large(&list, 1500).len(), 2);
    assert_eq!(keep_large(&list, 1501).len(), 1);
    assert_eq!(keep_large(&list, 0).len(), 3);
    assert!(keep_large(&list, u64::MAX).is_empty());
}
