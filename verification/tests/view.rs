use fdu::app::{ActiveTable, App};
use fdu::ranking::SizeEntry;
use fdu::state::{DirFiles, FrameData};
use fdu::view::{
    centered_rect, clamp_row, draw_in, draw_ui, elapsed_seconds, header_text, place_parts,
    render_size_table, screen_shares, size_row, split_screen, table_shares, try_render_size_table,
    Areas, Rect, Share, Tint,
};

fn entry(path: &str, size: u64) -> SizeEntry {
    SizeEntry { path: path.to_string(), size }
}

fn rect(x: u16, y: u16, width: u16, height: u16) -> Rect {
    Rect { x, y, width, height }
}

fn data() -> FrameData {
    let mut dir_files = DirFiles::new();
    dir_files.insert("/home/me/d".to_string(), vec![entry("/home/me/d/x", 4096)]);
    FrameData {
        top_files: vec![entry("/home/me/d/x", 4096), entry("/tmp/y", 300), entry("/tmp/z", 2)],
        top_dirs: vec![entry("/", 5000), entry("/home/me/d", 4096)],
        dir_files,
        total_bytes: 5000,
        file_count: 17,
        dir_count: 4,
        error_count: 1,
        done: false,
    }
}

#[test]
fn the_middle_of_an_area() {
    assert!(centered_rect(50, 7, rect(0, 0, 80, 24)) == rect(15, 8, 50, 7));
    assert!(centered_rect(50, 7, rect(3, 2, 21, 5)) == rect(3, 2, 21, 5));
    assert!(centered_rect(11, 4, rect(10, 20, 20, 9)) == rect(14, 22, 11, 4));
    assert!(Rect::new(65530, 1, 10, 65535) == rect(65530, 1, 5, 65534));
}

#[test]
fn a_centered_area_lies_inside() {
    for width in 0..9u16 {
        for outer in 0..9u16 {
            let inner = centered_rect(width, 3, rect(5, 5, outer, 7));
            assert!(inner.x >= 5 && inner.x + inner.width <= 5 + outer);
            assert!(inner.y >= 5 && inner.y + inner.height <= 12);
        }
    }
}

#[test]
fn a_row_is_aligned_and_coloured() {
    let row = size_row(0, "4 KiB", "~/x".to_string(), false, false);
    assert_eq!((row.rank.as_str(), row.size.as_str(), row.path.as_str()), ("  1", "     4 KiB", "~/x"));
    assert!(row.rank_tint == Tint::DarkGray && !row.pinned);
    assert!(size_row(0, "", String::new(), false, true).rank_tint == Tint::Gray);
    assert!(size_row(0, "", String::new(), true, true).rank_tint == Tint::Cyan);
    assert_eq!(size_row(999, "1023.99 MiB", String::new(), false, false).rank, "1000");
    assert_eq!(size_row(9, "1023.99 MiB", String::new(), false, false).size, "1023.99 MiB");
}

#[test]
fn a_table_shows_what_is_large_enough() {
    let list = data().top_files;
    let (table, count) =
        render_size_table(&list, " T ", true, 300, 80, Some("/tmp/y"), Some(1), Some("/home/me"));
    assert_eq!(count, 2);
    assert_eq!(table.title, " T ");
    assert!(table.active && table.border == Tint::Cyan);
    assert_eq!(table.rows[0].path, "~/d/x");
    assert_eq!(table.rows[0].size, "     4 KiB");
    assert!(!table.rows[0].pinned && table.rows[0].rank_tint == Tint::DarkGray);
    assert_eq!(table.rows[1].size, "     300 B");
    assert!(table.rows[1].pinned && table.rows[1].rank_tint == Tint::Cyan);

    let (table, count) = render_size_table(&list, "", false, 0, 80, None, Some(1), None);
    assert_eq!(count, 3);
    assert!(table.border == Tint::DarkGray);
    // Only an active table highlights its selection.
    assert!(table.rows[1].rank_tint == Tint::DarkGray);
    // The rows are the first entries of the list.
    for (row, e) in table.rows.iter().zip(&list) {
        assert_eq!(row.path, e.path);
    }
}

#[test]
fn sizes_are_written_in_binary_units() {
    let sizes = [1536, 1 << 20, 5 * (1 << 30) + (1 << 28), 1023, 0];
    let list: Vec<SizeEntry> = sizes.iter().map(|n| entry("/f", *n)).collect();
    let (table, _) = render_size_table(&list, "", true, 0, 80, None, None, None);
    let shown: Vec<&str> = table.rows.iter().map(|r| r.size.trim()).collect();
    assert_eq!(shown, ["1.50 KiB", "1 MiB", "5.25 GiB", "1023 B", "0 B"]);
}

#[test]
fn paths_are_cut_to_the_table() {
    let list = vec![entry("/a/long/path/to/a/file", 1)];
    let (table, _) = render_size_table(&list, "", true, 0, 33, None, None, None);
    assert_eq!(table.rows[0].path, "...".to_string() + "/a/file");
    let (table, _) = render_size_table(&list, "", true, 0, 10, None, None, None);
    assert_eq!(table.rows[0].path, "...");
    let list = vec![entry("ääääää", 1)];
    assert!(try_render_size_table(&list, "", true, 0, 29, None, None, None).is_none());
    assert!(try_render_size_table(&list, "", true, 0, 30, None, None, None).is_some());
    // What is not shown need not be cut.
    assert!(try_render_size_table(&list, "", true, 2, 29, None, None, None).is_some());
}

#[test]
fn the_selection_is_kept_in_its_table() {
    assert_eq!(clamp_row(None, 3), Some(0));
    assert_eq!(clamp_row(None, 0), None);
    assert_eq!(clamp_row(Some(2), 3), Some(2));
    assert_eq!(clamp_row(Some(3), 3), Some(2));
    assert_eq!(clamp_row(Some(3), 0), Some(3));
}

#[test]
fn the_screen_is_divided() {
    let area = rect(0, 0, 80, 24);
    let areas = split_screen(area, false);
    assert!(areas.full == area);
    assert!(areas.header == rect(0, 0, 80, 3));
    assert!(areas.dirs == Some(rect(0, 3, 80, 10)));
    assert!(areas.files == rect(0, 13, 80, 10));
    assert!(areas.footer == rect(0, 23, 80, 1));
    let areas = split_screen(rect(2, 1, 40, 24), true);
    assert!(areas.dirs.is_none());
    assert!(areas.files == rect(2, 4, 40, 20));
}

#[test]
fn the_header_tells_how_far_the_scan_is() {
    assert_eq!(
        header_text(true, "~/d", 12, 3, "4 KiB", 0, 61),
        " done ~/d | 12 files | 3 dirs | 4 KiB total | 0 errors | 61s"
    );
}

#[test]
fn a_picture_with_both_tables() {
    let mut app = App::new(false);
    app.dirs_state = Some(7);
    let (areas, screen) =
        draw_ui(&mut app, &data(), 5, 0, "/home/me", rect(0, 0, 80, 24), Some("/home/me")).unwrap();
    assert!(areas.dirs.is_some());
    assert_eq!(screen.header.icon, " ◉");
    assert_eq!(
        screen.header.text,
        " scanning ~ | 17 files | 4 dirs | 4.88 KiB total | 1 errors | 5s"
    );
    assert!(screen.header.tint == Tint::Cyan);
    let dirs = screen.dirs.unwrap();
    assert_eq!((dirs.title.as_str(), dirs.rows.len(), dirs.active), (" Largest Directories ", 2, true));
    assert_eq!(dirs.rows[1].path, "~/d");
    assert_eq!((screen.files.title.as_str(), screen.files.rows.len()), (" Largest Files ", 3));
    assert!(!screen.files.active);
    assert_eq!(
        screen.footer,
        " enter: filter by dir | d: delete | q: quit | tab: table | ↑↓/jk: navigate"
    );
    assert!(screen.question.is_none() && screen.notice.is_none());
    // The selections were moved into the tables.
    assert_eq!((app.dirs_state, app.files_state), (Some(1), Some(0)));
}

#[test]
fn a_picture_of_a_chosen_directory() {
    let mut app = App::new(false);
    app.filter_dir = Some("/home/me/d".to_string());
    app.active = ActiveTable::Files;
    let mut done = data();
    done.done = true;
    let (_, screen) =
        draw_ui(&mut app, &done, 5, 0, "/", rect(0, 0, 80, 24), Some("/home/me")).unwrap();
    assert_eq!(screen.header.icon, " ✓");
    assert!(screen.header.tint == Tint::Green);
    assert_eq!(screen.files.title, " Files in ~/d ");
    assert_eq!(screen.files.rows.len(), 1);
    assert!(screen.files.active);
    let dirs = screen.dirs.unwrap();
    assert!(!dirs.rows[0].pinned && dirs.rows[1].pinned);
    assert_eq!(
        screen.footer,
        " esc/bksp: clear filter | d: delete | q: quit | tab: table | ↑↓/jk: navigate"
    );
}

#[test]
fn a_picture_of_files_only() {
    let mut app = App::new(true);
    let (areas, screen) =
        draw_ui(&mut app, &data(), 5, 300, "/", rect(0, 0, 80, 24), None).unwrap();
    assert!(areas.dirs.is_none() && screen.dirs.is_none());
    assert_eq!(screen.files.rows.len(), 2);
    assert!(screen.files.active);
    assert_eq!(screen.footer, " q: quit | d: delete | ↑↓/jk: navigate");
    assert_eq!((app.dirs_state, app.files_state), (Some(0), Some(0)));
}

#[test]
fn dialogs_stand_in_the_middle() {
    let mut app = App::new(false);
    app.confirm_delete = Some(("/home/me/some/rather/deep/directory/of/no/use".to_string(), true));
    app.delete_error = Some("Delete failed: no".to_string());
    let (_, screen) = draw_ui(&mut app, &data(), 5, 0, "/", rect(0, 0, 80, 24), None).unwrap();
    let question = screen.question.unwrap();
    assert!(question.area == rect(15, 8, 50, 7));
    assert_eq!(question.path, "...e/rather/deep/directory/of/no/use");
    assert_eq!(question.path.len(), 36);
    let notice = screen.notice.unwrap();
    assert!(notice.area == rect(15, 9, 50, 5));
    assert_eq!(notice.text, "Delete failed: no");
}

#[test]
fn a_picture_that_cannot_be_drawn_changes_nothing() {
    let mut app = App::new(false);
    app.confirm_delete = Some(("ä".repeat(30), false));
    app.dirs_state = Some(9);
    let narrow = rect(0, 0, 36, 24);
    assert!(draw_ui(&mut app, &data(), 5, 0, "/", narrow, None).is_none());
    assert_eq!(app.dirs_state, Some(9));
    let areas = Areas {
        full: rect(0, 0, 37, 24),
        header: rect(0, 0, 37, 3),
        dirs: Some(rect(0, 3, 37, 10)),
        files: rect(0, 13, 37, 10),
        footer: rect(0, 23, 37, 1),
    };
    let screen = draw_in(&mut app, &data(), 5, 0, "/", &areas, None).unwrap();
    assert_eq!(screen.question.unwrap().path, "...".to_string() + &"ä".repeat(8));
    assert_eq!(app.dirs_state, Some(1));
}

#[test]
fn the_time_stands_still_when_the_scan_is_done() {
    let mut frozen = None;
    assert_eq!(elapsed_seconds(&mut frozen, false, 3), 3);
    assert_eq!(frozen, None);
    assert_eq!(elapsed_seconds(&mut frozen, true, 4), 4);
    assert_eq!(elapsed_seconds(&mut frozen, true, 9), 4);
    assert_eq!(frozen, Some(4));
}

#[test]
fn every_part_has_its_place() {
    assert!(screen_shares() == [Share::Length(3), Share::Min(5), Share::Length(1)]);
    assert!(table_shares() == [Share::Percentage(50), Share::Percentage(50)]);
    let area = rect(0, 0, 9, 9);
    let chunks = vec![rect(0, 0, 9, 1), rect(0, 1, 9, 6), rect(0, 7, 9, 2)];
    let tables = vec![rect(0, 1, 9, 3), rect(0, 4, 9, 3)];
    let both = place_parts(area, false, &chunks, &tables);
    assert!(both.full == area && both.header == chunks[0] && both.footer == chunks[2]);
    assert!(both.dirs == Some(tables[0]) && both.files == tables[1]);
    let one = place_parts(area, true, &chunks, &Vec::new());
    assert!(one.dirs.is_none() && one.files == chunks[1]);
}

#[test]
fn the_screen_is_filled_from_top_to_bottom() {
    for y in [0, 1, 7, 999] {
        for height in 0..=90u16 {
            let area = rect(3, y, 40, height);
            let a = split_screen(area, false);
            let dirs = a.dirs.unwrap();
            assert_eq!(a.header.y, y);
            assert_eq!(dirs.y, a.header.y + a.header.height);
            assert_eq!(a.files.y, dirs.y + dirs.height);
            assert_eq!(a.footer.y, a.files.y + a.files.height);
            assert_eq!(a.footer.y + a.footer.height, y + height);
            let rest = dirs.height + a.files.height;
            assert_eq!(dirs.height, (rest + 1) / 2);
            if height >= 9 {
                assert_eq!((a.header.height, rest, a.footer.height), (3, height - 4, 1));
            }
            let b = split_screen(area, true);
            assert_eq!(b.header.y, y);
            assert_eq!(b.files.y, b.header.y + b.header.height);
            assert_eq!(b.footer.y, b.files.y + b.files.height);
            assert_eq!(b.footer.y + b.footer.height, y + height);
        }
    }
    for height in [65535, 65534, 1000, 999] {
        let a = split_screen(rect(0, 65535 - height, 10, height), false);
        assert_eq!((a.header.height, a.footer.height), (3, 1));
        assert_eq!(a.footer.y, 65534);
        assert_eq!(a.dirs.unwrap().height, (height - 4 + 1) / 2);
    }
}
