use fdu::app::{Action, ActiveTable, App, Key};
use fdu::ranking::SizeEntry;
use fdu::state::{DirFiles, FrameData, ScanLists};

fn entry(path: &str, size: u64) -> SizeEntry {
    SizeEntry { path: path.to_string(), size }
}

fn data() -> FrameData {
    let mut dir_files = DirFiles::new();
    dir_files.insert("/r/d".to_string(), vec![entry("/r/d/x", 9), entry("/r/d/w", 2)]);
    FrameData {
        top_files: vec![entry("/r/d/x", 9), entry("/r/y", 3), entry("/r/d/w", 2)],
        top_dirs: vec![entry("/r", 14), entry("/r/d", 11)],
        dir_files,
        total_bytes: 14,
        file_count: 3,
        dir_count: 2,
        error_count: 0,
        done: false,
    }
}

fn press(app: &mut App, keys: &[Key]) {
    let data = data();
    for key in keys {
        assert!(matches!(app.on_key(*key, &data), Action::Continue));
    }
}

#[test]
fn the_interface_starts_with_the_directories() {
    let app = App::new(false);
    assert!(app.active == ActiveTable::Dirs);
    assert_eq!((app.files_state, app.dirs_state), (None, Some(0)));
    assert!(!app.files_only && app.filter_dir.is_none());
    assert!(app.confirm_delete.is_none() && app.delete_error.is_none());
    assert!(App::new(true).active == ActiveTable::Files);
}

#[test]
fn tab_switches_the_table_and_back() {
    let mut app = App::new(false);
    press(&mut app, &[Key::Tab]);
    assert!(app.active == ActiveTable::Files);
    assert_eq!(app.files_state, Some(0));
    press(&mut app, &[Key::Tab]);
    assert!(app.active == ActiveTable::Dirs);
    let mut app = App::new(true);
    app.toggle_table();
    assert!(app.active == ActiveTable::Files);
    assert_eq!(app.files_state, None);
}

#[test]
fn the_selection_moves_in_the_active_table() {
    let mut app = App::new(false);
    press(&mut app, &[Key::Up]);
    assert_eq!(app.dirs_state, Some(0));
    press(&mut app, &[Key::Down]);
    assert_eq!(app.dirs_state, Some(1));
    press(&mut app, &[Key::Char('j')]);
    assert_eq!(app.dirs_state, Some(1));
    press(&mut app, &[Key::Char('k')]);
    assert_eq!(app.dirs_state, Some(0));
    press(&mut app, &[Key::Tab, Key::Down, Key::Down, Key::Down]);
    assert_eq!((app.files_state, app.dirs_state), (Some(2), Some(0)));
}

#[test]
fn no_selection_moves_like_the_first_row() {
    let mut app = App::new(true);
    app.move_down(1);
    assert_eq!(app.files_state, None);
    app.move_down(2);
    assert_eq!(app.files_state, Some(1));
    app.files_state = None;
    app.move_up();
    assert_eq!(app.files_state, Some(0));
}

#[test]
fn up_leads_back_from_down() {
    for count in 1..5 {
        for row in 0..count {
            let mut app = App::new(false);
            app.dirs_state = Some(row);
            app.move_down(count);
            assert!(app.dirs_state.unwrap() < count);
            app.move_up();
            let expected = if row + 1 < count { row } else { row.saturating_sub(1) };
            assert_eq!(app.dirs_state, Some(expected));
        }
    }
}

#[test]
fn enter_shows_the_files_of_a_directory() {
    let mut app = App::new(false);
    app.files_state = Some(2);
    press(&mut app, &[Key::Down, Key::Enter]);
    assert_eq!(app.filter_dir.as_deref(), Some("/r/d"));
    assert!(app.active == ActiveTable::Files);
    assert_eq!(app.files_state, Some(0));
    press(&mut app, &[Key::Down, Key::Down]);
    assert_eq!(app.files_state, Some(1));
    assert_eq!(app.selected_path(&data()), Some(("/r/d/w".to_string(), false)));
    // Enter does nothing for files.
    press(&mut app, &[Key::Enter]);
    assert_eq!(app.filter_dir.as_deref(), Some("/r/d"));
}

#[test]
fn escape_and_backspace_let_go_of_the_directory() {
    for key in [Key::Esc, Key::Backspace] {
        let mut app = App::new(false);
        press(&mut app, &[Key::Enter, key]);
        assert!(app.filter_dir.is_none());
        assert!(app.active == ActiveTable::Dirs);
    }
    let mut app = App::new(false);
    press(&mut app, &[Key::Backspace]);
    assert!(matches!(app.on_key(Key::Esc, &data()), Action::Quit));
    assert!(matches!(app.on_key(Key::Char('q'), &data()), Action::Quit));
}

#[test]
fn a_selection_that_is_not_there_stands_for_nothing() {
    let mut app = App::new(false);
    app.dirs_state = Some(2);
    assert_eq!(app.selected_path(&data()), None);
    press(&mut app, &[Key::Char('d'), Key::Enter]);
    assert!(app.confirm_delete.is_none() && app.filter_dir.is_none());
    app.active = ActiveTable::Files;
    app.files_state = Some(1);
    assert_eq!(app.selected_path(&data()), Some(("/r/y".to_string(), false)));
    app.filter_dir = Some("/elsewhere".to_string());
    assert_eq!(app.selected_path(&data()), None);
}

#[test]
fn a_deletion_is_asked_about_first() {
    for yes in [Key::Char('y'), Key::Char('Y'), Key::Enter] {
        let mut app = App::new(false);
        press(&mut app, &[Key::Down, Key::Char('d')]);
        assert_eq!(app.confirm_delete, Some(("/r/d".to_string(), true)));
        match app.on_key(yes, &data()) {
            Action::Delete { path, is_dir } => assert_eq!((path.as_str(), is_dir), ("/r/d", true)),
            _ => panic!("nothing to delete"),
        }
        assert!(app.confirm_delete.is_none());
    }
    for no in [Key::Char('n'), Key::Char('N'), Key::Esc] {
        let mut app = App::new(false);
        press(&mut app, &[Key::Char('d'), no]);
        assert!(app.confirm_delete.is_none());
    }
}

#[test]
fn dialogs_hold_the_keys() {
    let mut app = App::new(false);
    press(&mut app, &[Key::Char('d'), Key::Char('q'), Key::Tab, Key::Down, Key::Backspace, Key::Other]);
    assert!(app.confirm_delete.is_some());
    assert!(app.active == ActiveTable::Dirs);
    assert_eq!(app.dirs_state, Some(0));
    app.on_delete_failed("Permission denied");
    assert_eq!(app.delete_error.as_deref(), Some("Delete failed: Permission denied"));
    // Any key takes the error away, and does nothing else.
    press(&mut app, &[Key::Char('y')]);
    assert!(app.delete_error.is_none());
    assert!(app.confirm_delete.is_some());
}

fn lists() -> ScanLists {
    let data = data();
    ScanLists {
        top_files: data.top_files,
        top_dirs: data.top_dirs,
        dir_files: data.dir_files,
        current_path: String::new(),
    }
}

#[test]
fn a_deleted_directory_is_no_longer_chosen() {
    let mut app = App::new(false);
    app.filter_dir = Some("/r/d".to_string());
    app.active = ActiveTable::Files;
    let mut kept = lists();
    app.on_deleted(&mut kept, &"/r".to_string(), true);
    assert_eq!(app.filter_dir.as_deref(), Some("/r/d"));
    let mut lists = lists();
    app.on_deleted(&mut lists, &"/r/d".to_string(), true);
    assert!(app.filter_dir.is_none());
    assert!(app.active == ActiveTable::Dirs);
    assert_eq!(lists.top_dirs.len(), 1);
    assert_eq!(lists.top_files.len(), 1);
}

#[test]
fn a_deleted_file_leaves_the_tables_as_they_are() {
    let mut app = App::new(false);
    app.filter_dir = Some("/r/d".to_string());
    let mut lists = lists();
    app.on_deleted(&mut lists, &"/r/d/x".to_string(), false);
    assert_eq!(app.filter_dir.as_deref(), Some("/r/d"));
    assert_eq!(lists.top_files.len(), 2);
    assert_eq!(lists.dir_files.get(&"/r/d".to_string()).unwrap().len(), 1);
}

#[test]
fn files_only_never_shows_directories() {
    let mut app = App::new(true);
    press(&mut app, &[Key::Tab, Key::Enter, Key::Backspace, Key::Down, Key::Char('x')]);
    assert!(app.active == ActiveTable::Files);
    assert!(app.filter_dir.is_none());
}
