//! What the interface shows: the texts, tables and dialogs of one picture, and where they go.

use ratatui::layout::{Constraint, Direction, Layout};
use vstd::prelude::*;
use vstd::string::StringExecFns;

use crate::app::{files_shown, ActiveTable, App};
use crate::paths::{
    clipped, cuts_cleanly, optional_text, shorten_path, shortened, try_truncate_path,
};
use crate::ranking::{ranked, SizeEntry};
use crate::report::{binary_size, format_size, keep_large, large_enough, law_shown_exactly};
use crate::state::{copy_entries, FrameData};
use crate::text::{decimal, owned, pad_left, padded, push_decimal, same_text, text_of};

verus! {

/// The columns of a table that are not there for the path.
pub const TABLE_MARGIN: usize = 23;

/// The widest that a dialog gets.
pub const DIALOG_WIDTH: u16 = 50;

/// The columns beside a dialog.
pub const DIALOG_MARGIN: u16 = 4;

/// The columns of the dialog about a deletion that are not there for the path.
pub const QUESTION_MARGIN: usize = 14;

pub const QUESTION_HEIGHT: u16 = 7;

pub const NOTICE_HEIGHT: u16 = 5;

/// A colour.
#[derive(Clone, Copy, PartialEq, Eq, Structural)]
pub enum Tint {
    Cyan,
    DarkGray,
    Gray,
    Green,
}

/// A part of the screen.
#[derive(Clone, Copy, PartialEq, Eq, Structural)]
pub struct Rect {
    pub x: u16,
    pub y: u16,
    pub width: u16,
    pub height: u16,
}

/// `a - b`, or 0 where that is less.
pub open spec fn difference(a: int, b: int) -> int {
    if a > b {
        a - b
    } else {
        0
    }
}

/// The smaller of the two.
pub open spec fn smaller(a: int, b: int) -> int {
    if a < b {
        a
    } else {
        b
    }
}

impl Rect {
    /// The part at `x` and `y`, no wider or higher than positions can be counted.
    pub open spec fn at(x: int, y: int, width: int, height: int) -> Rect {
        Rect {
            x: x as u16,
            y: y as u16,
            width: smaller(width, u16::MAX - x) as u16,
            height: smaller(height, u16::MAX - y) as u16,
        }
    }

    /// The part ends where positions can be counted.
    pub open spec fn wf(&self) -> bool {
        self.x + self.width <= u16::MAX && self.y + self.height <= u16::MAX
    }

    /// The part at `x` and `y`, no wider or higher than positions can be counted.
    pub fn new(x: u16, y: u16, width: u16, height: u16) -> (r: Self)
        ensures
            r == Rect::at(x as int, y as int, width as int, height as int),
            r.wf(),
    {
        let max_width: u16 = u16::MAX - x;
        let max_height: u16 = u16::MAX - y;
        Rect {
            x,
            y,
            width: if width > max_width {
                max_width
            } else {
                width
            },
            height: if height > max_height {
                max_height
            } else {
                height
            },
        }
    }
}

/// Where a part of `width` and `height` in the middle of `area` starts.
pub open spec fn centre(width: u16, height: u16, area: Rect) -> (int, int) {
    (
        area.x + difference(area.width as int, width as int) / 2,
        area.y + difference(area.height as int, height as int) / 2,
    )
}

/// The middle of `area`, of `width` and `height` as far as it has room for them.
pub open spec fn centered(width: u16, height: u16, area: Rect) -> Rect {
    Rect::at(
        centre(width, height, area).0,
        centre(width, height, area).1,
        smaller(width as int, area.width as int),
        smaller(height as int, area.height as int),
    )
}

/// The middle of `area`, of `width` and `height` as far as it has room for them.
pub fn centered_rect(width: u16, height: u16, area: Rect) -> (r: Rect)
    requires
        centre(width, height, area).0 <= u16::MAX,
        centre(width, height, area).1 <= u16::MAX,
    ensures
        r == centered(width, height, area),
{
    let x: u16 = area.x + area.width.saturating_sub(width) / 2;
    let y: u16 = area.y + area.height.saturating_sub(height) / 2;
    Rect::new(
        x,
        y,
        if width < area.width {
            width
        } else {
            area.width
        },
        if height < area.height {
            height
        } else {
            area.height
        },
    )
}

/// A row of a table.
pub struct SizeRow {
    pub rank: String,
    pub rank_tint: Tint,
    pub size: String,
    pub path: String,
    pub pinned: bool,
}

/// A row as it reads.
pub struct RowText {
    pub rank: Seq<char>,
    pub rank_tint: Tint,
    pub size: Seq<char>,
    pub path: Seq<char>,
    pub pinned: bool,
}

impl View for SizeRow {
    type V = RowText;

    open spec fn view(&self) -> RowText {
        RowText {
            rank: self.rank@,
            rank_tint: self.rank_tint,
            size: self.size@,
            path: self.path@,
            pinned: self.pinned,
        }
    }
}

/// The row of an entry: its rank, which counts from 1, its size and its path, to the right of
/// their columns but for the path.
pub open spec fn row_text(
    index: nat,
    size: Seq<char>,
    path: Seq<char>,
    pinned: bool,
    highlighted: bool,
) -> RowText {
    RowText {
        rank: padded(decimal(index + 1), 3),
        rank_tint: if pinned {
            Tint::Cyan
        } else if highlighted {
            Tint::Gray
        } else {
            Tint::DarkGray
        },
        size: padded(size, 10),
        path,
        pinned,
    }
}

/// The row of the entry with this size and path.
pub fn size_row(index: u64, size: &str, path: String, pinned: bool, highlighted: bool) -> (r: SizeRow)
    requires
        index < u64::MAX,
    ensures
        r@ == row_text(index as nat, size@, path@, pinned, highlighted),
{
    let mut rank: String = String::new();
    push_decimal(&mut rank, index + 1);
    assert(rank@ =~= decimal((index + 1) as nat));
    SizeRow {
        rank: pad_left(rank.as_str(), 3),
        rank_tint: if pinned {
            Tint::Cyan
        } else if highlighted {
            Tint::Gray
        } else {
            Tint::DarkGray
        },
        size: pad_left(size, 10),
        path,
        pinned,
    }
}

/// A table of entries with their sizes.
pub struct SizeTable {
    pub title: String,
    pub active: bool,
    pub border: Tint,
    pub rows: Vec<SizeRow>,
}

/// The columns that a table of `area_width` has for the path.
pub open spec fn path_width(area_width: u16) -> nat {
    difference(area_width as int, TABLE_MARGIN as int) as nat
}

/// How the path of `e` is written in a table of `area_width`.
pub open spec fn path_text(e: SizeEntry, area_width: u16, home: Option<Seq<char>>) -> Seq<char> {
    clipped(shortened(e.path@, home), path_width(area_width))
}

/// The paths of `entries` can be cut to a table of `area_width`.
pub open spec fn table_fits(
    entries: Seq<SizeEntry>,
    min_size: u64,
    area_width: u16,
    home: Option<Seq<char>>,
) -> bool {
    forall|i: int|
        0 <= i < large_enough(entries, min_size).len() ==> cuts_cleanly(
            shortened((#[trigger] large_enough(entries, min_size)[i]).path@, home),
            path_width(area_width),
        )
}

/// The rows of a table of `entries`.
pub open spec fn rows_text(
    entries: Seq<SizeEntry>,
    is_active: bool,
    min_size: u64,
    area_width: u16,
    pinned_path: Option<Seq<char>>,
    selected: Option<usize>,
    home: Option<Seq<char>>,
) -> Seq<RowText> {
    let shown = large_enough(entries, min_size);
    Seq::new(
        shown.len(),
        |i: int|
            row_text(
                i as nat,
                binary_size(shown[i].size),
                path_text(shown[i], area_width, home),
                pinned_path == Some(shown[i].path@),
                is_active && selected == Some(i as usize),
            ),
    )
}

/// The rows of a table as they read.
pub open spec fn row_views(rows: Seq<SizeRow>) -> Seq<RowText> {
    rows.map_values(|row: SizeRow| row@)
}

/// `table` shows `entries` under `title`.
pub open spec fn is_table_of(
    table: SizeTable,
    entries: Seq<SizeEntry>,
    title: Seq<char>,
    is_active: bool,
    min_size: u64,
    area_width: u16,
    pinned_path: Option<Seq<char>>,
    selected: Option<usize>,
    home: Option<Seq<char>>,
) -> bool {
    &&& table.title@ == title
    &&& table.active == is_active
    &&& table.border == (if is_active {
        Tint::Cyan
    } else {
        Tint::DarkGray
    })
    &&& row_views(table.rows@) == rows_text(
        entries,
        is_active,
        min_size,
        area_width,
        pinned_path,
        selected,
        home,
    )
}

/// The table of the `entries` that take `min_size` or more; `None` where a path would have to
/// be cut inside a character.
pub fn try_render_size_table(
    entries: &Vec<SizeEntry>,
    title: &str,
    is_active: bool,
    min_size: u64,
    area_width: u16,
    pinned_path: Option<&str>,
    selected: Option<usize>,
    home: Option<&str>,
) -> (r: Option<SizeTable>)
    ensures
        match r {
            Some(table) => {
                &&& table_fits(entries@, min_size, area_width, optional_text(home))
                &&& is_table_of(
                    table,
                    entries@,
                    title@,
                    is_active,
                    min_size,
                    area_width,
                    optional_text(pinned_path),
                    selected,
                    optional_text(home),
                )
            },
            None => !table_fits(entries@, min_size, area_width, optional_text(home)),
        },
{
    let shown: Vec<SizeEntry> = keep_large(entries, min_size);
    let width: usize = (area_width as usize).saturating_sub(TABLE_MARGIN);
    let mut rows: Vec<SizeRow> = Vec::new();
    let mut i: usize = 0;
    let ghost texts = rows_text(
        entries@,
        is_active,
        min_size,
        area_width,
        optional_text(pinned_path),
        selected,
        optional_text(home),
    );
    assert(row_views(rows@) =~= texts.take(0));
    while i < shown.len()
        invariant
            i <= shown@.len(),
            shown@ == large_enough(entries@, min_size),
            width == path_width(area_width),
            texts == rows_text(
                entries@,
                is_active,
                min_size,
                area_width,
                optional_text(pinned_path),
                selected,
                optional_text(home),
            ),
            row_views(rows@) == texts.take(i as int),
            forall|j: int|
                0 <= j < i ==> cuts_cleanly(
                    shortened((#[trigger] shown@[j]).path@, optional_text(home)),
                    path_width(area_width),
                ),
        decreases shown@.len() - i,
    {
        let ghost was = rows@;
        let e: &SizeEntry = &shown[i];
        let path: String = match try_truncate_path(e.path.as_str(), width, home) {
            Some(path) => path,
            None => {
                return None;
            },
        };
        let pinned: bool = match pinned_path {
            Some(p) => same_text(p, e.path.as_str()),
            None => false,
        };
        let highlighted: bool = is_active && match selected {
            Some(s) => s == i,
            None => false,
        };
        let row: SizeRow = size_row(
            i as u64,
            format_size(e.size).as_str(),
            path,
            pinned,
            highlighted,
        );
        rows.push(row);
        i += 1;
        proof {
            assert(row_views(rows@) =~= row_views(was).push(row@));
            assert(row@ == texts[i - 1]);
            assert(texts.take(i as int) =~= texts.take(i - 1).push(texts[i - 1]));
        }
    }
    assert(texts.take(shown@.len() as int) =~= texts);
    Some(
        SizeTable {
            title: owned(title),
            active: is_active,
            border: if is_active {
                Tint::Cyan
            } else {
                Tint::DarkGray
            },
            rows,
        },
    )
}

/// The table of the `entries` that take `min_size` or more, and the number of its rows.
pub fn render_size_table(
    entries: &Vec<SizeEntry>,
    title: &str,
    is_active: bool,
    min_size: u64,
    area_width: u16,
    pinned_path: Option<&str>,
    selected: Option<usize>,
    home: Option<&str>,
) -> (r: (SizeTable, usize))
    requires
        table_fits(entries@, min_size, area_width, optional_text(home)),
    ensures
        is_table_of(
            r.0,
            entries@,
            title@,
            is_active,
            min_size,
            area_width,
            optional_text(pinned_path),
            selected,
            optional_text(home),
        ),
        r.1 == large_enough(entries@, min_size).len(),
{
    match try_render_size_table(
        entries,
        title,
        is_active,
        min_size,
        area_width,
        pinned_path,
        selected,
        home,
    ) {
        Some(table) => {
            let count: usize = table.rows.len();
            assert(row_views(table.rows@).len() == count);
            (table, count)
        },
        None => {
            assert(false);
            (
                SizeTable {
                    title: String::new(),
                    active: is_active,
                    border: Tint::DarkGray,
                    rows: Vec::new(),
                },
                0,
            )
        },
    }
}

/// How much of the height a part of the screen gets.
#[derive(Clone, Copy, PartialEq, Eq, Structural)]
pub enum Share {
    Length(u16),
    Min(u16),
    Percentage(u16),
}

/// How the screen is divided: three lines for the header, one for the footer, and what is left
/// between them for the tables.
pub open spec fn screen_division() -> Seq<Share> {
    seq![Share::Length(3), Share::Min(5), Share::Length(1)]
}

/// How two tables divide what there is for them: each gets half.
pub open spec fn table_division() -> Seq<Share> {
    seq![Share::Percentage(50), Share::Percentage(50)]
}

/// The lines that the division of the screen asks for.
pub const SCREEN_LINES: u16 = 9;

/// The `parts` follow each other without a gap, from the top of `area` to its bottom.
pub open spec fn are_stacked(parts: Seq<Rect>, area: Rect) -> bool {
    &&& parts.len() > 0
    &&& parts[0].y == area.y
    &&& forall|i: int|
        0 < i < parts.len() ==> (#[trigger] parts[i]).y == parts[i - 1].y + parts[i - 1].height
    &&& parts.last().y + parts.last().height == area.y + area.height
}

/// Calls `ratatui::layout::Layout::split` with the parts below each other: one part for each
/// share, as far left and as wide as `area`. Divided as the screen or as two tables are, the
/// parts fill `area` from top to bottom: that they leave no space and do not overlap is the
/// strongest of the wishes that the solver weighs, and what is left goes to the part that may
/// grow. With lines enough the header and the footer get theirs, and of two tables the upper
/// gets the odd line. Which part of a screen with fewer lines gets how many is left open: the
/// solver may choose between equal solutions, and walks its tables in the order of a hasher.
#[verifier::external_body]
fn split_rows(area: Rect, shares: &Vec<Share>) -> (r: Vec<Rect>)
    ensures
        r@.len() == shares@.len(),
        forall|i: int|
            0 <= i < r@.len() ==> (#[trigger] r@[i]).x == area.x && r@[i].width == area.width,
        area.wf() && (shares@ == screen_division() || shares@ == table_division()) ==> are_stacked(
            r@,
            area,
        ),
        area.wf() && shares@ == screen_division() && area.height >= SCREEN_LINES ==> r@[0].height
            == 3 && r@[2].height == 1,
        area.wf() && shares@ == table_division() ==> r@[0].height == (area.height + 1) / 2,
{
    let constraints = shares.iter().map(|share| match share {
        Share::Length(n) => Constraint::Length(*n),
        Share::Min(n) => Constraint::Min(*n),
        Share::Percentage(n) => Constraint::Percentage(*n),
    });
    let outer = ratatui::layout::Rect { x: area.x, y: area.y, width: area.width, height: area.height };
    Layout::default().direction(Direction::Vertical).constraints(constraints).split(outer).iter()
        .map(|a| Rect { x: a.x, y: a.y, width: a.width, height: a.height }).collect()
}

/// The parts of the screen: the whole of it, the header, the table of directories unless it
/// is left out, the table of files, and the footer.
pub struct Areas {
    pub full: Rect,
    pub header: Rect,
    pub dirs: Option<Rect>,
    pub files: Rect,
    pub footer: Rect,
}

impl Areas {
    /// The parts are as wide as the screen and start where it does.
    pub open spec fn fill(&self, area: Rect) -> bool {
        &&& self.full == area
        &&& self.header.x == area.x && self.header.width == area.width
        &&& self.files.x == area.x && self.files.width == area.width
        &&& self.footer.x == area.x && self.footer.width == area.width
        &&& self.dirs matches Some(dirs) ==> dirs.x == area.x && dirs.width == area.width
    }

    /// From the top of `area` to its bottom come the header, the directories where they are
    /// shown, the files and the footer, without a gap. With lines enough the header gets three
    /// and the footer one; of the rest the directories get half, and an odd line.
    pub open spec fn stand_in(&self, area: Rect) -> bool {
        let top = self.header.y + self.header.height;
        let rest = self.footer.y - top;
        &&& self.header.y == area.y
        &&& match self.dirs {
            Some(dirs) => {
                &&& dirs.y == top
                &&& dirs.height == (rest + 1) / 2
                &&& self.files.y == top + dirs.height
            },
            None => self.files.y == top,
        }
        &&& self.files.y + self.files.height == self.footer.y
        &&& self.footer.y + self.footer.height == area.y + area.height
        &&& area.height >= SCREEN_LINES ==> self.header.height == 3 && self.footer.height == 1
    }
}

/// How the screen is divided.
pub fn screen_shares() -> (r: Vec<Share>)
    ensures
        r@ == screen_division(),
{
    let mut shares: Vec<Share> = Vec::new();
    shares.push(Share::Length(3));
    shares.push(Share::Min(5));
    shares.push(Share::Length(1));
    assert(shares@ =~= screen_division());
    shares
}

/// How two tables divide what there is for them.
pub fn table_shares() -> (r: Vec<Share>)
    ensures
        r@ == table_division(),
{
    let mut shares: Vec<Share> = Vec::new();
    shares.push(Share::Percentage(50));
    shares.push(Share::Percentage(50));
    assert(shares@ =~= table_division());
    shares
}

/// What goes where: of the `chunks` of the screen, the header into the first and the footer into
/// the last; the files into the one between, or, with both `tables` there, the directories into
/// its upper part and the files into its lower.
pub fn place_parts(area: Rect, files_only: bool, chunks: &Vec<Rect>, tables: &Vec<Rect>) -> (r: Areas)
    requires
        chunks@.len() == 3,
        !files_only ==> tables@.len() == 2,
    ensures
        r == (Areas {
            full: area,
            header: chunks@[0],
            dirs: if files_only {
                None
            } else {
                Some(tables@[0])
            },
            files: if files_only {
                chunks@[1]
            } else {
                tables@[1]
            },
            footer: chunks@[2],
        }),
{
    Areas {
        full: area,
        header: chunks[0],
        dirs: if files_only {
            None
        } else {
            Some(tables[0])
        },
        files: if files_only {
            chunks[1]
        } else {
            tables[1]
        },
        footer: chunks[2],
    }
}

/// Divides the screen, and what is there for two tables, and says what goes where. Which part
/// of a screen with too few lines gets how many is left open.
pub fn split_screen(area: Rect, files_only: bool) -> (r: Areas)
    ensures
        r.fill(area),
        r.dirs is None == files_only,
        area.wf() ==> r.stand_in(area),
{
    let chunks: Vec<Rect> = split_rows(area, &screen_shares());
    proof {
        assert(screen_division().len() == 3 && table_division().len() == 2);
        if area.wf() {
            assert(chunks@[1].y == chunks@[0].y + chunks@[0].height);
            assert(chunks@[2].y == chunks@[1].y + chunks@[1].height);
        }
    }
    let tables: Vec<Rect> = if files_only {
        Vec::new()
    } else {
        split_rows(chunks[1], &table_shares())
    };
    proof {
        if area.wf() && !files_only {
            assert(chunks@[1].wf());
            assert(tables@[1].y == tables@[0].y + tables@[0].height);
        }
    }
    place_parts(area, files_only, &chunks, &tables)
}

/// The seconds to show after `now` of them, and those to stand still at from then on: none as
/// long as the scan is not done.
pub open spec fn seconds_after(frozen: Option<u64>, done: bool, now: u64) -> (u64, Option<u64>) {
    if !done {
        (now, frozen)
    } else {
        match frozen {
            Some(seconds) => (seconds, frozen),
            None => (now, Some(now)),
        }
    }
}

/// The seconds that a scan has taken after `now` of them: they stand still from when it is
/// done, at the seconds in `frozen`.
pub fn elapsed_seconds(frozen: &mut Option<u64>, done: bool, now: u64) -> (r: u64)
    ensures
        r == (match *old(frozen) {
            Some(seconds) if done => seconds,
            _ => now,
        }),
        *final(frozen) == (if done {
            Some(r)
        } else {
            *old(frozen)
        }),
        (r, *final(frozen)) == seconds_after(*old(frozen), done, now),
{
    if !done {
        return now;
    }
    let seconds: u64 = match *frozen {
        Some(seconds) => seconds,
        None => now,
    };
    *frozen = Some(seconds);
    seconds
}

/// The first line of the screen.
pub struct Header {
    pub icon: String,
    pub text: String,
    pub tint: Tint,
}

/// The dialog that asks whether to delete `path`.
pub struct Question {
    pub area: Rect,
    pub path: String,
}

/// The dialog that shows an error.
pub struct Notice {
    pub area: Rect,
    pub text: String,
}

/// One picture of the interface.
pub struct Screen {
    pub header: Header,
    pub dirs: Option<SizeTable>,
    pub files: SizeTable,
    pub footer: String,
    pub question: Option<Question>,
    pub notice: Option<Notice>,
}

/// What the header says, where the path and the bytes are written `path` and `total`.
pub open spec fn header_words(
    done: bool,
    path: Seq<char>,
    files: u64,
    dirs: u64,
    total: Seq<char>,
    errors: u64,
    seconds: u64,
) -> Seq<char> {
    (if done {
        " done "@
    } else {
        " scanning "@
    }) + path + " | "@ + decimal(files as nat) + " files | "@ + decimal(dirs as nat) + " dirs | "@
        + total + " total | "@ + decimal(errors as nat) + " errors | "@ + decimal(seconds as nat)
        + "s"@
}

/// What the header says, where the path and the bytes are written `path` and `total`.
pub fn header_text(
    done: bool,
    path: &str,
    files: u64,
    dirs: u64,
    total: &str,
    errors: u64,
    seconds: u64,
) -> (r: String)
    ensures
        r@ == header_words(done, path@, files, dirs, total@, errors, seconds),
{
    let mut out: String = owned(
        if done {
            " done "
        } else {
            " scanning "
        },
    );
    out.append(path);
    out.append(" | ");
    push_decimal(&mut out, files);
    out.append(" files | ");
    push_decimal(&mut out, dirs);
    out.append(" dirs | ");
    out.append(total);
    out.append(" total | ");
    push_decimal(&mut out, errors);
    out.append(" errors | ");
    push_decimal(&mut out, seconds);
    out.append("s");
    out
}

/// `header` tells how far the scan of `scan_path` is.
pub open spec fn is_header(
    header: Header,
    data: FrameData,
    seconds: u64,
    scan_path: Seq<char>,
    home: Option<Seq<char>>,
) -> bool {
    &&& header.icon@ == (if data.done {
        " ✓"@
    } else {
        " ◉"@
    })
    &&& header.text@ == header_words(
        data.done,
        shortened(scan_path, home),
        data.file_count,
        data.dir_count,
        binary_size(data.total_bytes),
        data.error_count,
        seconds,
    )
    &&& header.tint == (if data.done {
        Tint::Green
    } else {
        Tint::Cyan
    })
}

/// The header for a scan of `scan_path`.
fn draw_header(data: &FrameData, seconds: u64, scan_path: &str, home: Option<&str>) -> (r: Header)
    ensures
        is_header(r, *data, seconds, scan_path@, optional_text(home)),
{
    Header {
        icon: owned(
            if data.done {
                " ✓"
            } else {
                " ◉"
            },
        ),
        text: header_text(
            data.done,
            shorten_path(scan_path, home).as_str(),
            data.file_count,
            data.dir_count,
            format_size(data.total_bytes).as_str(),
            data.error_count,
            seconds,
        ),
        tint: if data.done {
            Tint::Green
        } else {
            Tint::Cyan
        },
    }
}

/// The keys that the footer names.
pub open spec fn footer_text(files_only: bool, filtered: bool) -> Seq<char> {
    if files_only {
        " q: quit | d: delete | ↑↓/jk: navigate"@
    } else if filtered {
        " esc/bksp: clear filter | d: delete | q: quit | tab: table | ↑↓/jk: navigate"@
    } else {
        " enter: filter by dir | d: delete | q: quit | tab: table | ↑↓/jk: navigate"@
    }
}

/// The title of the table of files.
pub open spec fn files_title(filter: Option<String>, home: Option<Seq<char>>) -> Seq<char> {
    match filter {
        Some(dir) => " Files in "@ + shortened(dir@, home) + " "@,
        None => " Largest Files "@,
    }
}

/// The selection in a table of `count` rows: the first row where none is selected, and the
/// last where the selected row is not there. An empty table changes nothing.
pub open spec fn clamped(row: Option<usize>, count: nat) -> Option<usize> {
    match row {
        None if count > 0 => Some(0),
        Some(i) if i >= count && count > 0 => Some((count - 1) as usize),
        _ => row,
    }
}

/// Keeps the selection in a table of `count` rows.
pub fn clamp_row(row: Option<usize>, count: usize) -> (r: Option<usize>)
    ensures
        r == clamped(row, count as nat),
{
    match row {
        None => if count > 0 {
            Some(0)
        } else {
            None
        },
        Some(i) => if i >= count && count > 0 {
            Some(count - 1)
        } else {
            Some(i)
        },
    }
}

/// The width of a dialog.
pub open spec fn dialog_width(area: Rect) -> u16 {
    smaller(DIALOG_WIDTH as int, difference(area.width as int, DIALOG_MARGIN as int)) as u16
}

/// The columns that the dialog about a deletion has for the path.
pub open spec fn question_width(area: Rect) -> nat {
    difference(dialog_width(area) as int, QUESTION_MARGIN as int) as nat
}

/// The path of the question can be cut to its dialog.
pub open spec fn question_fits(app: App, area: Rect, home: Option<Seq<char>>) -> bool {
    app.confirm_delete matches Some((path, _)) ==> cuts_cleanly(
        shortened(path@, home),
        question_width(area),
    )
}

/// `question` is the dialog for what waits to be confirmed.
pub open spec fn is_question(
    question: Option<Question>,
    app: App,
    area: Rect,
    home: Option<Seq<char>>,
) -> bool {
    match app.confirm_delete {
        Some((path, _)) => question matches Some(q) && q.area == centered(
            dialog_width(area),
            QUESTION_HEIGHT,
            area,
        ) && q.path@ == clipped(shortened(path@, home), question_width(area)),
        None => question is None,
    }
}

/// `notice` is the dialog for the error to show.
pub open spec fn is_notice(notice: Option<Notice>, app: App, area: Rect) -> bool {
    match app.delete_error {
        Some(text) => notice matches Some(n) && n.area == centered(
            dialog_width(area),
            NOTICE_HEIGHT,
            area,
        ) && n.text@ == text@,
        None => notice is None,
    }
}

/// The width of a dialog.
fn width_of_dialog(area: Rect) -> (r: u16)
    ensures
        r == dialog_width(area),
        r <= area.width,
{
    let room: u16 = area.width.saturating_sub(DIALOG_MARGIN);
    if room < DIALOG_WIDTH {
        room
    } else {
        DIALOG_WIDTH
    }
}

/// The dialog for what waits to be confirmed, where there is something; `None` where its path
/// would have to be cut inside a character.
fn try_draw_question(app: &App, area: Rect, home: Option<&str>) -> (r: Option<Option<Question>>)
    requires
        area.wf(),
    ensures
        match r {
            Some(question) => question_fits(*app, area, optional_text(home)) && is_question(
                question,
                *app,
                area,
                optional_text(home),
            ),
            None => !question_fits(*app, area, optional_text(home)),
        },
{
    match &app.confirm_delete {
        Some((path, _)) => {
            let width: u16 = width_of_dialog(area);
            let columns: usize = (width as usize).saturating_sub(QUESTION_MARGIN);
            match try_truncate_path(path.as_str(), columns, home) {
                Some(text) => Some(
                    Some(Question { area: centered_rect(width, QUESTION_HEIGHT, area), path: text }),
                ),
                None => None,
            }
        },
        None => Some(None),
    }
}

/// The dialog for the error to show, where there is one.
fn draw_notice(app: &App, area: Rect) -> (r: Option<Notice>)
    requires
        area.wf(),
    ensures
        is_notice(r, *app, area),
{
    match &app.delete_error {
        Some(text) => {
            let width: u16 = width_of_dialog(area);
            Some(Notice { area: centered_rect(width, NOTICE_HEIGHT, area), text: text.clone() })
        },
        None => None,
    }
}

/// The paths of the picture can be cut to where they go.
pub open spec fn is_drawable(
    app: App,
    data: FrameData,
    min_size: u64,
    areas: Areas,
    home: Option<Seq<char>>,
) -> bool {
    &&& areas.dirs matches Some(dirs) ==> table_fits(data.top_dirs@, min_size, dirs.width, home)
    &&& table_fits(files_shown(app.filter_dir, data), min_size, areas.files.width, home)
    &&& question_fits(app, areas.full, home)
}

/// `screen` is the picture of `data` for the state `app`.
pub open spec fn is_picture(
    screen: Screen,
    app: App,
    data: FrameData,
    seconds: u64,
    min_size: u64,
    scan_path: Seq<char>,
    areas: Areas,
    home: Option<Seq<char>>,
) -> bool {
    let dirs_active = app.active == ActiveTable::Dirs;
    &&& is_header(screen.header, data, seconds, scan_path, home)
    &&& match areas.dirs {
        Some(area) => screen.dirs matches Some(table) && is_table_of(
            table,
            data.top_dirs@,
            " Largest Directories "@,
            dirs_active,
            min_size,
            area.width,
            text_of(app.filter_dir),
            app.dirs_state,
            home,
        ),
        None => screen.dirs is None,
    }
    &&& is_table_of(
        screen.files,
        files_shown(app.filter_dir, data),
        files_title(app.filter_dir, home),
        !dirs_active,
        min_size,
        areas.files.width,
        None,
        app.files_state,
        home,
    )
    &&& screen.footer@ == footer_text(app.files_only, app.filter_dir is Some)
    &&& is_question(screen.question, app, areas.full, home)
    &&& is_notice(screen.notice, app, areas.full)
}

/// The state `app` with the selections kept in the tables of `data`.
pub open spec fn settled(app: App, data: FrameData, min_size: u64) -> App {
    let files = large_enough(files_shown(app.filter_dir, data), min_size).len();
    let dirs = large_enough(data.top_dirs@, min_size).len();
    App {
        files_state: clamped(app.files_state, files),
        dirs_state: if app.files_only {
            app.dirs_state
        } else {
            clamped(app.dirs_state, dirs)
        },
        ..app
    }
}

/// The picture of `data` in `areas`, with the selections then kept in the tables; `None`, and
/// nothing changed, where a path would have to be cut inside a character.
pub fn draw_in(
    app: &mut App,
    data: &FrameData,
    seconds: u64,
    min_size: u64,
    scan_path: &str,
    areas: &Areas,
    home: Option<&str>,
) -> (r: Option<Screen>)
    requires
        old(app).wf(),
        data.wf(),
        areas.full.wf(),
        areas.dirs is None == old(app).files_only,
    ensures
        match r {
            Some(screen) => {
                &&& is_drawable(*old(app), *data, min_size, *areas, optional_text(home))
                &&& is_picture(
                    screen,
                    *old(app),
                    *data,
                    seconds,
                    min_size,
                    scan_path@,
                    *areas,
                    optional_text(home),
                )
                &&& *final(app) == settled(*old(app), *data, min_size)
                &&& final(app).wf()
            },
            None => !is_drawable(*old(app), *data, min_size, *areas, optional_text(home))
                && *final(app) == *old(app),
        },
{
    let filter: Option<&str> = match &app.filter_dir {
        Some(dir) => Some(dir.as_str()),
        None => None,
    };
    assert(optional_text(filter) == text_of(app.filter_dir));
    let dirs_active: bool = app.active == ActiveTable::Dirs;
    let dirs: Option<SizeTable> = match areas.dirs {
        Some(area) => Some(
            try_render_size_table(
                &data.top_dirs,
                " Largest Directories ",
                dirs_active,
                min_size,
                area.width,
                filter,
                app.dirs_state,
                home,
            )?,
        ),
        None => None,
    };
    let shown: Vec<SizeEntry> = match &app.filter_dir {
        Some(dir) => match data.dir_files.get(dir) {
            Some(files) => copy_entries(files),
            None => Vec::new(),
        },
        None => copy_entries(&data.top_files),
    };
    assert(shown@ =~= files_shown(app.filter_dir, *data));
    let title: String = match filter {
        Some(dir) => {
            let mut title: String = owned(" Files in ");
            title.append(shorten_path(dir, home).as_str());
            title.append(" ");
            title
        },
        None => owned(" Largest Files "),
    };
    let files: SizeTable = try_render_size_table(
        &shown,
        title.as_str(),
        !dirs_active,
        min_size,
        areas.files.width,
        None,
        app.files_state,
        home,
    )?;
    let question: Option<Question> = try_draw_question(app, areas.full, home)?;
    let notice: Option<Notice> = draw_notice(app, areas.full);
    let footer: String = owned(
        if app.files_only {
            " q: quit | d: delete | ↑↓/jk: navigate"
        } else if filter.is_some() {
            " esc/bksp: clear filter | d: delete | q: quit | tab: table | ↑↓/jk: navigate"
        } else {
            " enter: filter by dir | d: delete | q: quit | tab: table | ↑↓/jk: navigate"
        },
    );
    let header: Header = draw_header(data, seconds, scan_path, home);
    proof {
        assert(row_views(files.rows@).len() == files.rows@.len());
        if dirs is Some {
            assert(row_views(dirs->0.rows@).len() == dirs->0.rows@.len());
        }
    }
    if let Some(table) = &dirs {
        app.dirs_state = clamp_row(app.dirs_state, table.rows.len());
    }
    app.files_state = clamp_row(app.files_state, files.rows.len());
    Some(Screen { header, dirs, files, footer, question, notice })
}

/// Where the parts of the picture go, and the picture of `data` there, with the selections then
/// kept in the tables; `None`, and nothing changed, where a path would have to be cut inside a
/// character.
pub fn draw_ui(
    app: &mut App,
    data: &FrameData,
    seconds: u64,
    min_size: u64,
    scan_path: &str,
    area: Rect,
    home: Option<&str>,
) -> (r: Option<(Areas, Screen)>)
    requires
        old(app).wf(),
        data.wf(),
        area.wf(),
    ensures
        match r {
            Some((areas, screen)) => {
                &&& areas.fill(area)
                &&& areas.stand_in(area)
                &&& areas.dirs is None == old(app).files_only
                &&& is_drawable(*old(app), *data, min_size, areas, optional_text(home))
                &&& is_picture(
                    screen,
                    *old(app),
                    *data,
                    seconds,
                    min_size,
                    scan_path@,
                    areas,
                    optional_text(home),
                )
                &&& *final(app) == settled(*old(app), *data, min_size)
                &&& final(app).wf()
            },
            None => {
                &&& *final(app) == *old(app)
                &&& forall|areas: Areas| #[trigger]
                    areas.fill(area) && areas.dirs is None == old(app).files_only ==> !is_drawable(
                        *old(app),
                        *data,
                        min_size,
                        areas,
                        optional_text(home),
                    )
            },
        },
{
    let areas: Areas = split_screen(area, app.files_only);
    let screen: Option<Screen> = draw_in(app, data, seconds, min_size, scan_path, &areas, home);
    match screen {
        Some(screen) => Some((areas, screen)),
        None => None,
    }
}

/// A selection is in its table whenever the table has rows.
pub proof fn law_selection_is_shown(row: Option<usize>, count: nat)
    requires
        0 < count <= usize::MAX,
    ensures
        clamped(row, count) matches Some(i) && i < count,
        row matches Some(i) && i < count ==> clamped(row, count) == row,
{
}

/// The rows of a table are the first entries of its list: a ranked list loses only its end to
/// the smallest size shown.
pub proof fn law_rows_are_first_entries(list: Seq<SizeEntry>, min_size: u64)
    requires
        ranked(list),
    ensures
        large_enough(list, min_size) == list.take(large_enough(list, min_size).len() as int),
        large_enough(list, min_size).len() <= list.len(),
    decreases list.len(),
{
    reveal(Seq::filter);
    let keep = |e: SizeEntry| e.size >= min_size;
    if list.len() > 0 {
        let init = list.drop_last();
        law_rows_are_first_entries(init, min_size);
        let shown = init.filter(keep);
        if keep(list.last()) {
            assert forall|i: int| 0 <= i < init.len() implies keep(#[trigger] init[i]) by {
                assert(list[i].size >= list[list.len() - 1].size);
            }
            lemma_all_large(init, min_size);
            assert(large_enough(list, min_size) =~= list);
            assert(list.take(list.len() as int) =~= list);
        } else {
            assert(large_enough(list, min_size) == shown);
            assert(list.take(shown.len() as int) =~= init.take(shown.len() as int));
        }
    } else {
        assert(large_enough(list, min_size) =~= list.take(0));
    }
}

proof fn lemma_all_large(list: Seq<SizeEntry>, min_size: u64)
    requires
        forall|i: int| 0 <= i < list.len() ==> (#[trigger] list[i]).size >= min_size,
    ensures
        large_enough(list, min_size) == list,
    decreases list.len(),
{
    reveal(Seq::filter);
    if list.len() > 0 {
        assert forall|i: int| 0 <= i < list.drop_last().len() implies (
        #[trigger] list.drop_last()[i]).size >= min_size by {
            assert(list[i].size >= min_size);
        }
        lemma_all_large(list.drop_last(), min_size);
        assert(list[list.len() - 1].size >= min_size);
        assert(large_enough(list, min_size) =~= list);
    } else {
        assert(large_enough(list, min_size) =~= list);
    }
}

/// What the key to delete asks about is what the selected row shows.
pub proof fn law_target_is_shown(app: App, data: FrameData, min_size: u64, row: usize)
    requires
        app.row() == Some(row),
        ranked(app.list(data)),
        row < large_enough(app.list(data), min_size).len(),
    ensures
        app.target(data) == Some(
            (
                large_enough(app.list(data), min_size)[row as int].path,
                app.active == ActiveTable::Dirs,
            ),
        ),
{
    law_rows_are_first_entries(app.list(data), min_size);
}

/// What is put in the middle of a part of the screen lies in it.
pub proof fn law_centered_inside(width: u16, height: u16, area: Rect)
    requires
        area.wf(),
    ensures
        area.x <= centered(width, height, area).x,
        area.y <= centered(width, height, area).y,
        centered(width, height, area).x + centered(width, height, area).width <= area.x
            + area.width,
        centered(width, height, area).y + centered(width, height, area).height <= area.y
            + area.height,
{
}

/// A table shows every entry of the smallest size or more, and no other, in their order: its
/// rank, its size and its path, shortened and cut to the columns that the others leave. The
/// chosen directory is marked, and so is the selected row of the active table.
pub proof fn law_table_rows(
    table: SizeTable,
    entries: Seq<SizeEntry>,
    title: Seq<char>,
    is_active: bool,
    min_size: u64,
    area_width: u16,
    pinned_path: Option<Seq<char>>,
    selected: Option<usize>,
    home: Option<Seq<char>>,
)
    requires
        is_table_of(
            table,
            entries,
            title,
            is_active,
            min_size,
            area_width,
            pinned_path,
            selected,
            home,
        ),
        entries.len() <= usize::MAX,
    ensures
        ({
            let shown = entries.filter(|e: SizeEntry| e.size >= min_size);
            let columns: nat = if area_width >= 23 {
                (area_width - 23) as nat
            } else {
                0
            };
            &&& table.title@ == title
            &&& table.active == is_active
            &&& (table.border == Tint::Cyan) == is_active
            &&& !is_active ==> table.border == Tint::DarkGray
            &&& table.rows@.len() == shown.len()
            &&& forall|i: int|
                0 <= i < shown.len() ==> {
                    &&& (#[trigger] table.rows@[i]).rank@ == padded(decimal((i + 1) as nat), 3)
                    &&& table.rows@[i].size@ == padded(binary_size(shown[i].size), 10)
                    &&& table.rows@[i].path@ == clipped(shortened(shown[i].path@, home), columns)
                    &&& table.rows@[i].pinned == (pinned_path == Some(shown[i].path@))
                    &&& (table.rows@[i].rank_tint == Tint::Cyan) == table.rows@[i].pinned
                    &&& (table.rows@[i].rank_tint == Tint::Gray) == (!table.rows@[i].pinned
                        && is_active && selected == Some(i as usize))
                    &&& table.rows@[i].rank_tint != Tint::Green
                }
        }),
{
    let shown = entries.filter(|e: SizeEntry| e.size >= min_size);
    let texts = rows_text(entries, is_active, min_size, area_width, pinned_path, selected, home);
    assert(row_views(table.rows@).len() == table.rows@.len());
    assert(texts.len() == shown.len());
    assert forall|i: int| 0 <= i < shown.len() implies (#[trigger] table.rows@[i])@ == texts[i] by {
        assert(row_views(table.rows@)[i] == table.rows@[i]@);
    }
}

/// A picture has the header, both tables or only that of the files, the footer, and the dialogs
/// for what waits to be confirmed and for an error. Both tables leave out what is too small.
pub proof fn law_picture_parts(
    screen: Screen,
    app: App,
    data: FrameData,
    seconds: u64,
    min_size: u64,
    scan_path: Seq<char>,
    areas: Areas,
    home: Option<Seq<char>>,
)
    requires
        is_picture(screen, app, data, seconds, min_size, scan_path, areas, home),
    ensures
        screen.dirs is Some == areas.dirs is Some,
        areas.dirs matches Some(area) ==> is_table_of(
            screen.dirs->0,
            data.top_dirs@,
            " Largest Directories "@,
            app.active == ActiveTable::Dirs,
            min_size,
            area.width,
            text_of(app.filter_dir),
            app.dirs_state,
            home,
        ),
        is_table_of(
            screen.files,
            match app.filter_dir {
                Some(dir) => if data.dir_files@.contains_key(dir@) {
                    data.dir_files@[dir@]
                } else {
                    Seq::empty()
                },
                None => data.top_files@,
            },
            match app.filter_dir {
                Some(dir) => " Files in "@ + shortened(dir@, home) + " "@,
                None => " Largest Files "@,
            },
            app.active == ActiveTable::Files,
            min_size,
            areas.files.width,
            None,
            app.files_state,
            home,
        ),
        screen.dirs is Some ==> screen.dirs->0.active != screen.files.active,
        screen.header.tint == (if data.done {
            Tint::Green
        } else {
            Tint::Cyan
        }),
        screen.header.icon@ == (if data.done {
            " ✓"@
        } else {
            " ◉"@
        }),
        screen.header.text@ == header_words(
            data.done,
            shortened(scan_path, home),
            data.file_count,
            data.dir_count,
            binary_size(data.total_bytes),
            data.error_count,
            seconds,
        ),
        screen.question is Some == app.confirm_delete is Some,
        screen.notice is Some == app.delete_error is Some,
        app.delete_error is Some ==> screen.notice->0.text@ == app.delete_error->0@,
        app.files_only ==> screen.footer@ == " q: quit | d: delete | ↑↓/jk: navigate"@,
        !app.files_only && app.filter_dir is Some ==> screen.footer@
            == " esc/bksp: clear filter | d: delete | q: quit | tab: table | ↑↓/jk: navigate"@,
        !app.files_only && app.filter_dir is None ==> screen.footer@
            == " enter: filter by dir | d: delete | q: quit | tab: table | ↑↓/jk: navigate"@,
{
}

/// The dialogs stand in the middle of the screen: no wider than 50 columns and with two free on
/// each side, the question seven lines high and the error five, as far as there is room. The
/// path of the question is cut to the columns that it has there.
pub proof fn law_dialogs_in_the_middle(
    question: Option<Question>,
    notice: Option<Notice>,
    app: App,
    area: Rect,
    home: Option<Seq<char>>,
)
    requires
        area.wf(),
        is_question(question, app, area, home),
        is_notice(notice, app, area),
    ensures
        ({
            let room: int = if area.width < 4 {
                0
            } else {
                area.width - 4
            };
            let width: int = if room < 50 {
                room
            } else {
                50
            };
            &&& question matches Some(q) ==> is_in_the_middle(q.area, width, 7, area)
            &&& notice matches Some(n) ==> is_in_the_middle(n.area, width, 5, area)
            &&& app.confirm_delete matches Some((path, is_dir)) ==> question is Some
                && question->0.path@ == clipped(
                shortened(path@, home),
                (if width < 14 {
                    0int
                } else {
                    width - 14
                }) as nat,
            )
        }),
{
}

/// `part` has this size as far as `area` has room for it, and as much of `area` lies to its left
/// and above it as to its right and below it, or one less.
pub open spec fn is_in_the_middle(part: Rect, width: int, height: int, area: Rect) -> bool {
    let right = (area.x + area.width) - (part.x + part.width);
    let below = (area.y + area.height) - (part.y + part.height);
    &&& part.width == (if width < area.width {
        width
    } else {
        area.width as int
    })
    &&& part.height == (if height < area.height {
        height
    } else {
        area.height as int
    })
    &&& 0 <= right - (part.x - area.x) <= 1
    &&& 0 <= below - (part.y - area.y) <= 1
}

/// What is put in the middle of a part of the screen has as much of it on one side as on the
/// other.
pub proof fn law_centered_evenly(width: u16, height: u16, area: Rect)
    requires
        area.wf(),
    ensures
        is_in_the_middle(centered(width, height, area), width as int, height as int, area),
{
}

/// After a picture the selection of a table with rows is one of them: the same as before where
/// it was one, the last where it lay behind them, the first where there was none. Nothing else
/// of the state changes, and of the directories nothing where only files are shown.
pub proof fn law_selections_settle(app: App, data: FrameData, min_size: u64)
    requires
        data.top_files@.len() <= usize::MAX,
        data.top_dirs@.len() <= usize::MAX,
    ensures
        ({
            let after = settled(app, data, min_size);
            let files = files_shown(app.filter_dir, data).filter(
                |e: SizeEntry| e.size >= min_size,
            ).len();
            let dirs = data.top_dirs@.filter(|e: SizeEntry| e.size >= min_size).len();
            &&& after == (App {
                files_state: after.files_state,
                dirs_state: after.dirs_state,
                ..app
            })
            &&& settles(app.files_state, after.files_state, files)
            &&& app.files_only ==> after.dirs_state == app.dirs_state
            &&& !app.files_only ==> settles(app.dirs_state, after.dirs_state, dirs)
        }),
{
}

/// The row `after` is the row `before` kept in a table of `count` rows.
pub open spec fn settles(before: Option<usize>, after: Option<usize>, count: nat) -> bool {
    &&& count == 0 ==> after == before
    &&& count > 0 && before is None ==> after == Some(0usize)
    &&& before is Some && before->0 < count ==> after == before
    &&& count > 0 && before is Some && before->0 >= count && count <= usize::MAX ==> after is Some
        && after->0 == count - 1
}

/// A picture can be drawn just where every path that it shows fits or can be cut between two
/// characters: of the directories and files that are large enough, and of the question.
pub proof fn law_what_can_be_drawn(
    app: App,
    data: FrameData,
    min_size: u64,
    areas: Areas,
    home: Option<Seq<char>>,
)
    ensures
        is_drawable(app, data, min_size, areas, home) <==> {
            &&& areas.dirs is Some ==> forall|i: int|
                0 <= i < data.top_dirs@.len() && (#[trigger] data.top_dirs@[i]).size >= min_size
                    ==> cuts_cleanly(
                    shortened(data.top_dirs@[i].path@, home),
                    path_width(areas.dirs->0.width),
                )
            &&& forall|i: int|
                0 <= i < files_shown(app.filter_dir, data).len() && (#[trigger] files_shown(
                    app.filter_dir,
                    data,
                )[i]).size >= min_size ==> cuts_cleanly(
                    shortened(files_shown(app.filter_dir, data)[i].path@, home),
                    path_width(areas.files.width),
                )
            &&& app.confirm_delete matches Some((path, is_dir)) ==> cuts_cleanly(
                shortened(path@, home),
                question_width(areas.full),
            )
        },
{
    lemma_fits(files_shown(app.filter_dir, data), min_size, areas.files.width, home);
    if areas.dirs is Some {
        lemma_fits(data.top_dirs@, min_size, areas.dirs->0.width, home);
    }
}

proof fn lemma_fits(
    entries: Seq<SizeEntry>,
    min_size: u64,
    area_width: u16,
    home: Option<Seq<char>>,
)
    ensures
        table_fits(entries, min_size, area_width, home) <==> forall|i: int|
            0 <= i < entries.len() && (#[trigger] entries[i]).size >= min_size ==> cuts_cleanly(
                shortened(entries[i].path@, home),
                path_width(area_width),
            ),
{
    let shown = large_enough(entries, min_size);
    if table_fits(entries, min_size, area_width, home) {
        assert forall|i: int| 0 <= i < entries.len() && (#[trigger] entries[i]).size >= min_size implies cuts_cleanly(
            shortened(entries[i].path@, home),
            path_width(area_width),
        ) by {
            law_shown_exactly(entries, min_size, entries[i]);
            let j = choose|j: int| 0 <= j < shown.len() && shown[j] == entries[i];
            assert(cuts_cleanly(shortened(shown[j].path@, home), path_width(area_width)));
        }
    }
    if forall|i: int|
        0 <= i < entries.len() && (#[trigger] entries[i]).size >= min_size ==> cuts_cleanly(
            shortened(entries[i].path@, home),
            path_width(area_width),
        ) {
        assert forall|i: int| 0 <= i < shown.len() implies cuts_cleanly(
            shortened((#[trigger] shown[i]).path@, home),
            path_width(area_width),
        ) by {
            law_shown_exactly(entries, min_size, shown[i]);
            let j = choose|j: int| 0 <= j < entries.len() && entries[j] == shown[i];
            assert(entries[j].size >= min_size);
        }
    }
}

/// The header names its numbers in their order, and all of them.
pub proof fn law_header_in_order(
    done: bool,
    path: Seq<char>,
    files: u64,
    dirs: u64,
    total: Seq<char>,
    errors: u64,
    seconds: u64,
)
    ensures
        ({
            let times = decimal(errors as nat) + " errors | "@ + decimal(seconds as nat) + "s"@;
            let found = decimal(files as nat) + " files | "@ + decimal(dirs as nat) + " dirs | "@
                + total + " total | "@;
            let text = header_words(done, path, files, dirs, total, errors, seconds);
            &&& done ==> text == " done "@ + path + " | "@ + found + times
            &&& !done ==> text == " scanning "@ + path + " | "@ + found + times
        }),
{
    let times = decimal(errors as nat) + " errors | "@ + decimal(seconds as nat) + "s"@;
    let found = decimal(files as nat) + " files | "@ + decimal(dirs as nat) + " dirs | "@ + total
        + " total | "@;
    let text = header_words(done, path, files, dirs, total, errors, seconds);
    if done {
        assert(text =~= " done "@ + path + " | "@ + found + times);
    } else {
        assert(text =~= " scanning "@ + path + " | "@ + found + times);
    }
}

/// The parts of the screen take all of its lines, each line once: the header stands at the top
/// and the footer at the bottom, and two tables share what is left evenly, the directories above
/// with the odd line.
pub proof fn law_parts_fill_screen(areas: Areas, area: Rect)
    requires
        area.wf(),
        areas.fill(area),
        areas.stand_in(area),
    ensures
        areas.full == area,
        areas.header.y == area.y,
        areas.dirs is None ==> areas.header.height + areas.files.height + areas.footer.height
            == area.height,
        areas.dirs is None ==> areas.files.y == areas.header.y + areas.header.height,
        areas.dirs matches Some(dirs) ==> areas.header.height + dirs.height + areas.files.height
            + areas.footer.height == area.height,
        areas.dirs matches Some(dirs) ==> dirs.y == areas.header.y + areas.header.height
            && areas.files.y == dirs.y + dirs.height,
        areas.dirs matches Some(dirs) ==> 0 <= dirs.height - areas.files.height <= 1,
        areas.footer.y == areas.files.y + areas.files.height,
        areas.header.x == area.x && areas.files.x == area.x && areas.footer.x == area.x,
        areas.header.width == area.width && areas.files.width == area.width && areas.footer.width
            == area.width,
        areas.dirs matches Some(dirs) ==> dirs.x == area.x && dirs.width == area.width,
        area.height >= 9 ==> areas.header.height == 3 && areas.footer.height == 1,
{
}

/// The seconds run as long as a scan does, and stand still at the end of it, however often and
/// however late they are asked for.
pub proof fn law_seconds_stand_still(frozen: Option<u64>, now: u64, later: u64)
    ensures
        seconds_after(frozen, false, now) == (now, frozen),
        frozen is None ==> seconds_after(frozen, true, now).0 == now,
        seconds_after(seconds_after(frozen, true, now).1, true, later) == seconds_after(
            frozen,
            true,
            now,
        ),
        frozen matches Some(seconds) ==> seconds_after(frozen, true, now).0 == seconds,
{
}

} // verus!
