//! The state of the interface, and what the keys do to it.

use vstd::prelude::*;
use vstd::string::StringExecFns;

use crate::ranking::SizeEntry;
use crate::state::{forgets, FrameData, ScanLists};
use crate::text::owned;

verus! {

/// The table that the keys work on.
#[derive(Clone, Copy, PartialEq, Eq, Structural)]
pub enum ActiveTable {
    Files,
    Dirs,
}

/// The state of the interface: the active table, the row selected in each table, the directory
/// whose files are shown, the path to delete, with whether it is a directory, that waits to be
/// confirmed, and the error that is shown.
pub struct App {
    pub active: ActiveTable,
    pub files_state: Option<usize>,
    pub dirs_state: Option<usize>,
    pub files_only: bool,
    pub filter_dir: Option<String>,
    pub confirm_delete: Option<(String, bool)>,
    pub delete_error: Option<String>,
}

/// A key that was pressed.
#[derive(Clone, Copy, PartialEq, Eq, Structural)]
pub enum Key {
    Char(char),
    Enter,
    Esc,
    Backspace,
    Tab,
    Up,
    Down,
    Other,
}

/// What is to be done after a key.
pub enum Action {
    Continue,
    Quit,
    /// Delete `path`, a directory with everything in it or a file.
    Delete { path: String, is_dir: bool },
}

/// The files that the interface shows: those of the chosen directory, or the largest of all.
pub open spec fn files_shown(filter: Option<String>, data: FrameData) -> Seq<SizeEntry> {
    match filter {
        Some(dir) => if data.dir_files@.contains_key(dir@) {
            data.dir_files@[dir@]
        } else {
            Seq::empty()
        },
        None => data.top_files@,
    }
}

/// The row above, or the first.
pub open spec fn row_above(row: Option<usize>) -> Option<usize> {
    match row {
        Some(i) if i > 0 => Some((i - 1) as usize),
        _ => Some(0),
    }
}

/// The row below of `count` rows; the same row where there is none. No selection counts as
/// the first row.
pub open spec fn row_below(row: Option<usize>, count: nat) -> Option<usize> {
    let i = match row {
        Some(i) => i,
        None => 0,
    };
    if i + 1 < count {
        Some((i + 1) as usize)
    } else {
        row
    }
}

/// The selected row, or the first.
pub open spec fn row_or_first(row: Option<usize>) -> Option<usize> {
    match row {
        Some(_) => row,
        None => Some(0),
    }
}

impl App {
    /// Where only files are shown, the files are active and no directory is chosen.
    pub open spec fn wf(&self) -> bool {
        self.files_only ==> self.active == ActiveTable::Files && self.filter_dir is None
    }

    /// The state at the start.
    pub open spec fn start(files_only: bool) -> App {
        App {
            active: if !files_only {
                ActiveTable::Dirs
            } else {
                ActiveTable::Files
            },
            files_state: None,
            dirs_state: Some(0),
            files_only,
            filter_dir: None,
            confirm_delete: None,
            delete_error: None,
        }
    }

    /// The state at the start.
    pub fn new(files_only: bool) -> (r: Self)
        ensures
            r.wf(),
            r == App::start(files_only),
            r == (App {
                active: if files_only {
                    ActiveTable::Files
                } else {
                    ActiveTable::Dirs
                },
                files_state: None,
                dirs_state: Some(0),
                files_only,
                filter_dir: None,
                confirm_delete: None,
                delete_error: None,
            }),
    {
        App {
            active: if files_only {
                ActiveTable::Files
            } else {
                ActiveTable::Dirs
            },
            files_state: None,
            dirs_state: Some(0),
            files_only,
            filter_dir: None,
            confirm_delete: None,
            delete_error: None,
        }
    }

    /// The state with the other table active.
    pub open spec fn toggled(self) -> App {
        if self.files_only {
            self
        } else {
            match self.active {
                ActiveTable::Files => App {
                    active: ActiveTable::Dirs,
                    dirs_state: row_or_first(self.dirs_state),
                    ..self
                },
                ActiveTable::Dirs => App {
                    active: ActiveTable::Files,
                    files_state: row_or_first(self.files_state),
                    ..self
                },
            }
        }
    }

    /// Makes the other table active, unless only files are shown.
    pub fn toggle_table(&mut self)
        ensures
            *final(self) == old(self).toggled(),
    {
        if self.files_only {
            return;
        }
        match self.active {
            ActiveTable::Files => {
                self.active = ActiveTable::Dirs;
                if self.dirs_state.is_none() {
                    self.dirs_state = Some(0);
                }
            },
            ActiveTable::Dirs => {
                self.active = ActiveTable::Files;
                if self.files_state.is_none() {
                    self.files_state = Some(0);
                }
            },
        }
    }

    /// The row selected in the active table.
    pub open spec fn row(self) -> Option<usize> {
        match self.active {
            ActiveTable::Files => self.files_state,
            ActiveTable::Dirs => self.dirs_state,
        }
    }

    /// The state with another row selected in the active table.
    pub open spec fn with_row(self, row: Option<usize>) -> App {
        match self.active {
            ActiveTable::Files => App { files_state: row, ..self },
            ActiveTable::Dirs => App { dirs_state: row, ..self },
        }
    }

    fn selected_row(&self) -> (r: Option<usize>)
        ensures
            r == self.row(),
    {
        match self.active {
            ActiveTable::Files => self.files_state,
            ActiveTable::Dirs => self.dirs_state,
        }
    }

    fn select_row(&mut self, row: Option<usize>)
        ensures
            *final(self) == old(self).with_row(row),
    {
        match self.active {
            ActiveTable::Files => {
                self.files_state = row;
            },
            ActiveTable::Dirs => {
                self.dirs_state = row;
            },
        }
    }

    /// Selects the row above in the active table.
    pub fn move_up(&mut self)
        ensures
            *final(self) == old(self).with_row(row_above(old(self).row())),
    {
        let i: usize = match self.selected_row() {
            Some(i) => i,
            None => 0,
        };
        self.select_row(
            Some(
                if i > 0 {
                    i - 1
                } else {
                    0
                },
            ),
        );
    }

    /// Selects the row below in the active table, which has `max` rows.
    pub fn move_down(&mut self, max: usize)
        ensures
            *final(self) == old(self).with_row(row_below(old(self).row(), max as nat)),
    {
        let i: usize = match self.selected_row() {
            Some(i) => i,
            None => 0,
        };
        if i < max && i + 1 < max {
            self.select_row(Some(i + 1));
        }
    }

    /// The entries of the active table.
    pub open spec fn list(self, data: FrameData) -> Seq<SizeEntry> {
        match self.active {
            ActiveTable::Files => files_shown(self.filter_dir, data),
            ActiveTable::Dirs => data.top_dirs@,
        }
    }

    /// What the selected row of the active table stands for, and whether it is a directory.
    pub open spec fn target(self, data: FrameData) -> Option<(String, bool)> {
        let list = self.list(data);
        match self.row() {
            Some(i) if i < list.len() => Some((list[i as int].path, self.active == ActiveTable::Dirs)),
            _ => None,
        }
    }

    /// What the selected row of the active table stands for, and whether it is a directory.
    pub fn selected_path(&self, data: &FrameData) -> (r: Option<(String, bool)>)
        requires
            data.wf(),
        ensures
            r == self.target(*data),
    {
        match self.active {
            ActiveTable::Files => {
                let i: usize = self.files_state?;
                let files: &Vec<SizeEntry> = match &self.filter_dir {
                    Some(dir) => data.dir_files.get(dir)?,
                    None => &data.top_files,
                };
                if i < files.len() {
                    Some((files[i].path.clone(), false))
                } else {
                    None
                }
            },
            ActiveTable::Dirs => {
                let i: usize = self.dirs_state?;
                if i < data.top_dirs.len() {
                    Some((data.top_dirs[i].path.clone(), true))
                } else {
                    None
                }
            },
        }
    }

    /// The state without a chosen directory, and with the directories active.
    pub open spec fn unfiltered(self) -> App {
        App { active: ActiveTable::Dirs, filter_dir: None, ..self }
    }

    /// What `key` does while an answer is waited for whether to delete `path`.
    pub open spec fn answered(self, key: Key, path: String, is_dir: bool) -> (App, Action) {
        match key {
            Key::Char('y') | Key::Char('Y') | Key::Enter => (
                App { confirm_delete: None, ..self },
                Action::Delete { path, is_dir },
            ),
            Key::Char('n') | Key::Char('N') | Key::Esc => (
                App { confirm_delete: None, ..self },
                Action::Continue,
            ),
            _ => (self, Action::Continue),
        }
    }

    /// What `key` does to the tables.
    pub open spec fn steered(self, key: Key, data: FrameData) -> (App, Action) {
        match key {
            Key::Char('q') => (self, Action::Quit),
            Key::Esc => if self.filter_dir is Some {
                (self.unfiltered(), Action::Continue)
            } else {
                (self, Action::Quit)
            },
            Key::Backspace => if self.filter_dir is Some {
                (self.unfiltered(), Action::Continue)
            } else {
                (self, Action::Continue)
            },
            Key::Enter => (
                match self.dirs_state {
                    Some(i) if self.active == ActiveTable::Dirs && i < data.top_dirs@.len() => App {
                        active: ActiveTable::Files,
                        files_state: Some(0),
                        filter_dir: Some(data.top_dirs@[i as int].path),
                        ..self
                    },
                    _ => self,
                },
                Action::Continue,
            ),
            Key::Char('d') => (
                match self.target(data) {
                    Some(t) => App { confirm_delete: Some(t), ..self },
                    None => self,
                },
                Action::Continue,
            ),
            Key::Tab => (self.toggled(), Action::Continue),
            Key::Up | Key::Char('k') => (self.with_row(row_above(self.row())), Action::Continue),
            Key::Down | Key::Char('j') => (
                self.with_row(row_below(self.row(), self.list(data).len())),
                Action::Continue,
            ),
            _ => (self, Action::Continue),
        }
    }

    /// What `key` does: it takes an error away, answers a question, or works on the tables.
    pub open spec fn pressed(self, key: Key, data: FrameData) -> (App, Action) {
        if self.delete_error is Some {
            (App { delete_error: None, ..self }, Action::Continue)
        } else {
            match self.confirm_delete {
                Some((path, is_dir)) => self.answered(key, path, is_dir),
                None => self.steered(key, data),
            }
        }
    }

    fn clear_filter(&mut self)
        ensures
            *final(self) == old(self).unfiltered(),
    {
        self.filter_dir = None;
        self.active = ActiveTable::Dirs;
    }

    fn answer(&mut self, key: Key) -> (r: Action)
        requires
            old(self).confirm_delete is Some,
        ensures
            old(self).confirm_delete matches Some((path, is_dir)) && (*final(self), r) == old(
                self,
            ).answered(key, path, is_dir),
    {
        match key {
            Key::Char('y') | Key::Char('Y') | Key::Enter => {
                match self.confirm_delete.take() {
                    Some((path, is_dir)) => Action::Delete { path, is_dir },
                    None => Action::Continue,
                }
            },
            Key::Char('n') | Key::Char('N') | Key::Esc => {
                self.confirm_delete = None;
                Action::Continue
            },
            _ => Action::Continue,
        }
    }

    fn steer(&mut self, key: Key, data: &FrameData) -> (r: Action)
        requires
            data.wf(),
        ensures
            (*final(self), r) == old(self).steered(key, *data),
    {
        match key {
            Key::Char('q') => {
                return Action::Quit;
            },
            Key::Esc => {
                if self.filter_dir.is_none() {
                    return Action::Quit;
                }
                self.clear_filter();
            },
            Key::Backspace => {
                if self.filter_dir.is_some() {
                    self.clear_filter();
                }
            },
            Key::Enter => {
                if let (ActiveTable::Dirs, Some(i)) = (self.active, self.dirs_state) {
                    if i < data.top_dirs.len() {
                        self.filter_dir = Some(data.top_dirs[i].path.clone());
                        self.active = ActiveTable::Files;
                        self.files_state = Some(0);
                    }
                }
            },
            Key::Char('d') => {
                if let Some(target) = self.selected_path(data) {
                    self.confirm_delete = Some(target);
                }
            },
            Key::Tab => {
                self.toggle_table();
            },
            Key::Up | Key::Char('k') => {
                self.move_up();
            },
            Key::Down | Key::Char('j') => {
                let max: usize = match self.active {
                    ActiveTable::Files => match &self.filter_dir {
                        Some(dir) => match data.dir_files.get(dir) {
                            Some(files) => files.len(),
                            None => 0,
                        },
                        None => data.top_files.len(),
                    },
                    ActiveTable::Dirs => data.top_dirs.len(),
                };
                self.move_down(max);
            },
            _ => {},
        }
        Action::Continue
    }

    /// Does what `key` does, and returns what is left to do.
    pub fn on_key(&mut self, key: Key, data: &FrameData) -> (r: Action)
        requires
            data.wf(),
        ensures
            (*final(self), r) == old(self).pressed(key, *data),
    {
        if self.delete_error.is_some() {
            self.delete_error = None;
            Action::Continue
        } else if self.confirm_delete.is_some() {
            self.answer(key)
        } else {
            self.steer(key, data)
        }
    }

    /// The directory `path` is chosen.
    pub open spec fn has_chosen(self, path: Seq<char>) -> bool {
        self.filter_dir matches Some(dir) && dir@ == path
    }

    /// The state after `path` was deleted.
    pub open spec fn after_deletion(self, path: Seq<char>, is_dir: bool) -> App {
        if is_dir && self.has_chosen(path) {
            self.unfiltered()
        } else {
            self
        }
    }

    /// Forgets what was deleted: `path` and, of a directory, everything below it. A chosen
    /// directory is no longer chosen then.
    pub fn on_deleted(&mut self, lists: &mut ScanLists, path: &String, is_dir: bool)
        requires
            old(lists).wf(),
        ensures
            final(lists).wf(),
            old(self).wf() ==> final(self).wf(),
            forgets(*old(lists), *final(lists), path@, is_dir),
            *final(self) == (if is_dir && old(self).has_chosen(path@) {
                old(self).unfiltered()
            } else {
                *old(self)
            }),
            *final(self) == old(self).after_deletion(path@, is_dir),
    {
        if is_dir {
            lists.forget_dir(path);
            let chosen: bool = match &self.filter_dir {
                Some(dir) => *dir == *path,
                None => false,
            };
            if chosen {
                self.clear_filter();
            }
        } else {
            lists.forget_file(path);
        }
    }

    /// Shows why a deletion failed.
    pub fn on_delete_failed(&mut self, reason: &str)
        ensures
            final(self).delete_error matches Some(text) && text@ == "Delete failed: "@ + reason@,
            *final(self) == (App { delete_error: final(self).delete_error, ..*old(self) }),
    {
        let mut text: String = owned("Delete failed: ");
        text.append(reason);
        self.delete_error = Some(text);
    }
}

/// No key leads out of the valid states.
pub proof fn law_keys_keep_validity(app: App, key: Key, data: FrameData)
    requires
        app.wf(),
    ensures
        app.pressed(key, data).0.wf(),
        app.pressed(key, data).0.files_only == app.files_only,
{
}

/// Only what was asked about is deleted, and only by an answer of yes: with no error shown and
/// with the question for that path open.
pub proof fn law_delete_is_confirmed(app: App, key: Key, data: FrameData)
    ensures
        app.pressed(key, data).1 matches Action::Delete { path, is_dir } ==> app.confirm_delete
            == Some((path, is_dir)) && app.delete_error is None && (key == Key::Enter || key
            == Key::Char('y') || key == Key::Char('Y')),
        app.pressed(key, data).1 is Delete ==> app.pressed(key, data).0.confirm_delete is None,
{
}

/// A question is only opened for the selected row, by the key for it.
pub proof fn law_question_is_about_selection(app: App, key: Key, data: FrameData)
    ensures
        app.confirm_delete is None && app.pressed(key, data).0.confirm_delete is Some ==> key
            == Key::Char('d') && app.pressed(key, data).0.confirm_delete == app.target(data),
{
}

/// While an error or a question is shown, no key leaves the program, and none touches the
/// tables.
pub proof fn law_dialogs_hold(app: App, key: Key, data: FrameData)
    requires
        app.delete_error is Some || app.confirm_delete is Some,
    ensures
        !(app.pressed(key, data).1 is Quit),
        app.pressed(key, data).0.active == app.active,
        app.pressed(key, data).0.files_state == app.files_state,
        app.pressed(key, data).0.dirs_state == app.dirs_state,
        app.pressed(key, data).0.filter_dir == app.filter_dir,
{
}

/// The selection stays in a table that it is in: a row that a table shows is followed by a row
/// that it shows.
pub proof fn law_selection_stays(row: usize, count: nat)
    requires
        row < count,
    ensures
        row_above(Some(row)) matches Some(i) && i < count,
        row_below(Some(row), count) matches Some(i) && i < count,
{
}

/// Going down and up again leads back, unless there is no row below.
pub proof fn law_up_undoes_down(row: usize, count: nat)
    requires
        row + 1 < count,
        count <= usize::MAX,
    ensures
        row_above(row_below(Some(row), count)) == Some(row),
{
}

/// Switching tables twice leads back, but for a first row that is selected where none was.
pub proof fn law_toggle_twice(app: App)
    requires
        app.files_only || (app.files_state is Some && app.dirs_state is Some),
    ensures
        app.toggled().toggled() == app,
{
}

/// A directory that was chosen is let go of by Escape, and only then does Escape leave.
pub proof fn law_escape(app: App, data: FrameData)
    requires
        app.delete_error is None,
        app.confirm_delete is None,
    ensures
        app.filter_dir is Some ==> app.pressed(Key::Esc, data).0 == app.unfiltered()
            && app.pressed(Key::Esc, data).1 is Continue,
        app.filter_dir is None ==> app.pressed(Key::Esc, data).1 is Quit,
        app.unfiltered().pressed(Key::Esc, data).1 is Quit,
{
}

/// An error that is shown is taken away by any key, which does nothing else.
pub proof fn law_any_key_takes_error_away(app: App, key: Key, data: FrameData)
    requires
        app.delete_error is Some,
    ensures
        app.pressed(key, data).0 == (App { delete_error: None, ..app }),
        app.pressed(key, data).1 is Continue,
{
}

/// A question is answered by yes or no: both close it, yes deletes what was asked about, and
/// every other key leaves it open.
pub proof fn law_question_is_answered(app: App, key: Key, data: FrameData, path: String, is_dir: bool)
    requires
        app.delete_error is None,
        app.confirm_delete == Some((path, is_dir)),
    ensures
        ({
            let yes = key == Key::Char('y') || key == Key::Char('Y') || key == Key::Enter;
            let no = key == Key::Char('n') || key == Key::Char('N') || key == Key::Esc;
            let (after, action) = app.pressed(key, data);
            &&& after.confirm_delete == (if yes || no {
                None
            } else {
                app.confirm_delete
            })
            &&& after == (App { confirm_delete: after.confirm_delete, ..app })
            &&& yes ==> action == (Action::Delete { path, is_dir })
            &&& !yes ==> action is Continue
        }),
{
}

/// The key for it asks whether to delete what the selected row of the active table shows: a file
/// of the chosen directory or of the largest, or a directory. Where the row shows nothing, it
/// asks nothing.
pub proof fn law_selected_row_is_asked_about(app: App, data: FrameData)
    requires
        app.delete_error is None,
        app.confirm_delete is None,
    ensures
        ({
            let (after, action) = app.pressed(Key::Char('d'), data);
            &&& action is Continue
            &&& after == (App { confirm_delete: after.confirm_delete, ..app })
            &&& after.confirm_delete == app.target(data)
        }),
        app.active == ActiveTable::Files ==> (app.files_state matches Some(i) ==> (
        app.filter_dir is None && i < data.top_files@.len() ==> app.pressed(
            Key::Char('d'),
            data,
        ).0.confirm_delete == Some((data.top_files@[i as int].path, false)))),
        app.active == ActiveTable::Files ==> (app.files_state matches Some(i) ==> (
        app.filter_dir matches Some(dir) ==> (data.dir_files@.contains_key(dir@) && i
            < data.dir_files@[dir@].len() ==> app.pressed(Key::Char('d'), data).0.confirm_delete
            == Some((data.dir_files@[dir@][i as int].path, false))))),
        app.active == ActiveTable::Dirs ==> (app.dirs_state matches Some(i) ==> (i
            < data.top_dirs@.len() ==> app.pressed(Key::Char('d'), data).0.confirm_delete == Some(
            (data.top_dirs@[i as int].path, true),
        ))),
        app.pressed(Key::Char('d'), data).0.confirm_delete is Some == shows_row(app, data),
{
}

/// The active table shows an entry in its selected row.
pub open spec fn shows_row(app: App, data: FrameData) -> bool {
    match app.active {
        ActiveTable::Files => app.files_state matches Some(i) && (match app.filter_dir {
            Some(dir) => data.dir_files@.contains_key(dir@) && i < data.dir_files@[dir@].len(),
            None => i < data.top_files@.len(),
        }),
        ActiveTable::Dirs => app.dirs_state matches Some(i) && i < data.top_dirs@.len(),
    }
}

/// The program is left by `q`, and by Escape where no directory is chosen, and by nothing else;
/// no key touches the tables on the way out.
pub proof fn law_only_these_keys_leave(app: App, key: Key, data: FrameData)
    ensures
        app.pressed(key, data).1 is Quit == (app.delete_error is None && app.confirm_delete is None
            && (key == Key::Char('q') || (key == Key::Esc && app.filter_dir is None))),
        app.pressed(key, data).1 is Quit ==> app.pressed(key, data).0 == app,
{
}

/// Enter shows the files of the directory in the selected row, from the first one on; in the
/// table of files, and where there is no such row, it does nothing.
pub proof fn law_enter_chooses(app: App, data: FrameData)
    requires
        app.delete_error is None,
        app.confirm_delete is None,
    ensures
        app.pressed(Key::Enter, data).1 is Continue,
        app.active == ActiveTable::Dirs && shows_row(app, data) ==> app.pressed(Key::Enter, data).0
            == (App {
            active: ActiveTable::Files,
            files_state: Some(0),
            filter_dir: Some(data.top_dirs@[app.dirs_state->0 as int].path),
            ..app
        }),
        app.active == ActiveTable::Files || !shows_row(app, data) ==> app.pressed(
            Key::Enter,
            data,
        ).0 == app,
{
}

/// Backspace and Escape let go of a chosen directory and lead back to the directories, with the
/// rows as they were; where none is chosen, Backspace does nothing.
pub proof fn law_directory_is_let_go(app: App, key: Key, data: FrameData)
    requires
        app.delete_error is None,
        app.confirm_delete is None,
        key == Key::Backspace || key == Key::Esc,
    ensures
        app.filter_dir is Some ==> app.pressed(key, data).0 == (App {
            active: ActiveTable::Dirs,
            filter_dir: None,
            ..app
        }) && app.pressed(key, data).1 is Continue,
        app.filter_dir is None ==> app.pressed(key, data).0 == app,
        key == Key::Backspace ==> app.pressed(key, data).1 is Continue,
{
}

/// Tab leads to the other table, where a row is selected then, and to none where only files are
/// shown.
pub proof fn law_tab_switches(app: App, data: FrameData)
    requires
        app.delete_error is None,
        app.confirm_delete is None,
    ensures
        ({
            let (after, action) = app.pressed(Key::Tab, data);
            let to_dirs = app.active == ActiveTable::Files;
            &&& action is Continue
            &&& app.files_only ==> after == app
            &&& !app.files_only ==> after == (App {
                active: after.active,
                files_state: after.files_state,
                dirs_state: after.dirs_state,
                ..app
            })
            &&& !app.files_only ==> (after.active == ActiveTable::Dirs) == to_dirs
            &&& !app.files_only && to_dirs ==> after.files_state == app.files_state
                && after.dirs_state is Some && (app.dirs_state is Some ==> after.dirs_state
                == app.dirs_state) && (app.dirs_state is None ==> after.dirs_state == Some(0usize))
            &&& !app.files_only && !to_dirs ==> after.dirs_state == app.dirs_state
                && after.files_state is Some && (app.files_state is Some ==> after.files_state
                == app.files_state) && (app.files_state is None ==> after.files_state == Some(
                0usize,
            ))
        }),
{
}

/// How many rows the active table has.
pub open spec fn row_count(app: App, data: FrameData) -> nat {
    match app.active {
        ActiveTable::Files => match app.filter_dir {
            Some(dir) => if data.dir_files@.contains_key(dir@) {
                data.dir_files@[dir@].len()
            } else {
                0
            },
            None => data.top_files@.len(),
        },
        ActiveTable::Dirs => data.top_dirs@.len(),
    }
}

/// The keys that move the selection move it by one row in the active table, as far as there are
/// rows, and touch nothing else.
pub proof fn law_selection_moves(app: App, key: Key, data: FrameData)
    requires
        app.delete_error is None,
        app.confirm_delete is None,
        key == Key::Up || key == Key::Char('k') || key == Key::Down || key == Key::Char('j'),
    ensures
        ({
            let (after, action) = app.pressed(key, data);
            let up = key == Key::Up || key == Key::Char('k');
            let files = app.active == ActiveTable::Files;
            let from = if files {
                app.files_state
            } else {
                app.dirs_state
            };
            let to = if files {
                after.files_state
            } else {
                after.dirs_state
            };
            let at: int = match from {
                Some(i) => i as int,
                None => 0,
            };
            &&& action is Continue
            &&& files ==> after == (App { files_state: to, ..app })
            &&& !files ==> after == (App { dirs_state: to, ..app })
            &&& up ==> (to matches Some(i) && i == (if at == 0 {
                0
            } else {
                at - 1
            }))
            &&& !up && at + 1 < row_count(app, data) <= usize::MAX ==> (to matches Some(i) && i == at + 1)
            &&& !up && at + 1 >= row_count(app, data) ==> to == from
        }),
{
}

/// Every other key does nothing to the tables.
pub proof fn law_other_keys_do_nothing(app: App, key: Key, data: FrameData)
    requires
        app.delete_error is None,
        app.confirm_delete is None,
        key != Key::Char('q') && key != Key::Esc && key != Key::Backspace && key != Key::Enter,
        key != Key::Char('d') && key != Key::Tab && key != Key::Up && key != Key::Char('k'),
        key != Key::Down && key != Key::Char('j'),
    ensures
        app.pressed(key, data).0 == app,
        app.pressed(key, data).1 is Continue,
{
}

/// Without a chosen directory the largest files are shown, and with one the files listed for it,
/// if there are any.
pub proof fn law_files_that_are_shown(filter: Option<String>, data: FrameData)
    ensures
        filter is None ==> files_shown(filter, data) == data.top_files@,
        filter matches Some(dir) ==> (data.dir_files@.contains_key(dir@) ==> files_shown(filter, data)
            == data.dir_files@[dir@]),
        filter matches Some(dir) ==> (!data.dir_files@.contains_key(dir@) ==> files_shown(
            filter,
            data,
        ).len() == 0),
{
}

/// A directory is chosen just where it is the one whose files are shown.
pub proof fn law_chosen_by_path(app: App, path: Seq<char>)
    ensures
        app.has_chosen(path) == (app.filter_dir is Some && app.filter_dir->0@ == path),
        app.unfiltered() == (App { active: ActiveTable::Dirs, filter_dir: None, ..app }),
        !app.unfiltered().has_chosen(path),
{
}

/// Of the state a deletion changes nothing but the choice of the directory that was deleted: the
/// directories are active then, and none is chosen.
pub proof fn law_deletion_and_choice(app: App, path: Seq<char>, is_dir: bool)
    ensures
        ({
            let after = app.after_deletion(path, is_dir);
            let gone = is_dir && app.filter_dir is Some && app.filter_dir->0@ == path;
            &&& gone ==> after == (App { active: ActiveTable::Dirs, filter_dir: None, ..app })
            &&& !gone ==> after == app
            &&& is_dir ==> !after.has_chosen(path)
        }),
{
}

/// At the start the first directory is selected, or only the files are there to be shown, without
/// a question, an error or a chosen directory.
pub proof fn law_start(files_only: bool, data: FrameData, key: Key)
    ensures
        ({
            let app = App::start(files_only);
            &&& app.wf()
            &&& (app.active == ActiveTable::Files) == files_only
            &&& app.files_only == files_only
            &&& app.dirs_state == Some(0usize)
            &&& app.files_state is None
            &&& app.confirm_delete is None && app.delete_error is None && app.filter_dir is None
            &&& app.pressed(Key::Esc, data).1 is Quit
            &&& !(app.pressed(key, data).1 is Delete)
        }),
{
}

} // verus!
