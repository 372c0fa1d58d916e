//! What is printed when a scan is done.

use vstd::prelude::*;
use vstd::string::StringExecFns;

use crate::paths::{optional_text, shorten_path, shortened};
use crate::ranking::SizeEntry;
use crate::state::FrameData;
use crate::text::{decimal, law_padding_is_blank, owned, pad_left, padded, push_decimal};

verus! {

/// `bytes` as `humansize::format_size` writes them in binary units.
pub uninterp spec fn binary_size(bytes: u64) -> Seq<char>;

/// Calls `humansize::format_size` with the options `BINARY`: the size in the largest unit of a
/// power of 1024 that it reaches, and less than 1024 bytes as a whole number of them. How the
/// larger sizes are rounded is left to the name.
#[verifier::external_body]
pub(crate) fn format_size(bytes: u64) -> (r: String)
    ensures
        r@ == binary_size(bytes),
        bytes < 1024 ==> r@ == decimal(bytes as nat) + " B"@,
{
    humansize::format_size(bytes, humansize::BINARY)
}

/// The entries that take `min_size` bytes or more.
pub open spec fn large_enough(entries: Seq<SizeEntry>, min_size: u64) -> Seq<SizeEntry> {
    entries.filter(|e: SizeEntry| e.size >= min_size)
}

/// The entries that take `min_size` bytes or more, in their order.
pub fn keep_large(entries: &Vec<SizeEntry>, min_size: u64) -> (r: Vec<SizeEntry>)
    ensures
        r@ == large_enough(entries@, min_size),
{
    let ghost keep = |e: SizeEntry| e.size >= min_size;
    let mut out: Vec<SizeEntry> = Vec::new();
    let mut i: usize = 0;
    proof {
        reveal(Seq::filter);
        assert(entries@.take(0).filter(keep) =~= Seq::<SizeEntry>::empty());
    }
    while i < entries.len()
        invariant
            i <= entries@.len(),
            keep == (|e: SizeEntry| e.size >= min_size),
            out@ == entries@.take(i as int).filter(keep),
        decreases entries@.len() - i,
    {
        proof {
            reveal(Seq::filter);
            assert(entries@.take(i + 1).drop_last() =~= entries@.take(i as int));
            assert(entries@.take(i + 1).last() == entries@[i as int]);
        }
        if entries[i].size >= min_size {
            out.push(entries[i].clone());
        }
        i += 1;
    }
    assert(entries@.take(entries@.len() as int) =~= entries@);
    out
}

/// What a scan found, in numbers, where all bytes are written `total`.
pub open spec fn summary_text(files: u64, dirs: u64, total: Seq<char>) -> Seq<char> {
    "Scanned "@ + decimal(files as nat) + " files, "@ + decimal(dirs as nat) + " dirs, "@ + total
        + " total"@
}

/// What a scan found, in numbers, where all bytes are written `total`.
pub fn summary(files: u64, dirs: u64, total: &str) -> (r: String)
    ensures
        r@ == summary_text(files, dirs, total@),
{
    let mut out: String = owned("Scanned ");
    push_decimal(&mut out, files);
    out.append(" files, ");
    push_decimal(&mut out, dirs);
    out.append(" dirs, ");
    out.append(total);
    out.append(" total");
    out
}

/// The line of the entry with this rank, size and path.
pub open spec fn line_text(rank: nat, size: Seq<char>, path: Seq<char>) -> Seq<char> {
    "  "@ + padded(decimal(rank), 3) + ". "@ + padded(size, 10) + "  "@ + path + "\n"@
}

/// The line of the entry with this rank, size and path.
pub fn report_line(rank: u64, size: &str, path: &str) -> (r: String)
    ensures
        r@ == line_text(rank as nat, size@, path@),
{
    let mut number: String = String::new();
    push_decimal(&mut number, rank);
    assert(number@ =~= decimal(rank as nat));
    let mut out: String = owned("  ");
    out.append(pad_left(number.as_str(), 3).as_str());
    out.append(". ");
    out.append(pad_left(size, 10).as_str());
    out.append("  ");
    out.append(path);
    out.append("\n");
    out
}

/// A line for each entry, ranked from 1 on.
pub open spec fn lines_text(entries: Seq<SizeEntry>, home: Option<Seq<char>>) -> Seq<char>
    decreases entries.len(),
{
    if entries.len() == 0 {
        Seq::empty()
    } else {
        let e = entries.last();
        lines_text(entries.drop_last(), home) + line_text(
            entries.len(),
            binary_size(e.size),
            shortened(e.path@, home),
        )
    }
}

/// Writes a line for each entry behind `out`.
fn push_lines(out: &mut String, entries: &Vec<SizeEntry>, home: Option<&str>)
    ensures
        final(out)@ == old(out)@ + lines_text(entries@, optional_text(home)),
{
    let ghost before = out@;
    let mut i: usize = 0;
    assert(before + lines_text(entries@.take(0), optional_text(home)) =~= before);
    while i < entries.len()
        invariant
            i <= entries@.len(),
            out@ == before + lines_text(entries@.take(i as int), optional_text(home)),
        decreases entries@.len() - i,
    {
        let e: &SizeEntry = &entries[i];
        let line: String = report_line(
            i as u64 + 1,
            format_size(e.size).as_str(),
            shorten_path(e.path.as_str(), home).as_str(),
        );
        out.append(line.as_str());
        proof {
            let next = entries@.take(i + 1);
            assert(next.drop_last() =~= entries@.take(i as int));
            assert(next.last() == *e);
            assert(out@ =~= before + lines_text(next, optional_text(home)));
        }
        i += 1;
    }
    assert(entries@.take(entries@.len() as int) =~= entries@);
}

/// What is printed of a scan without the interface: the numbers, the largest files and, unless
/// they are left out, the largest directories.
pub open spec fn report_text(
    data: FrameData,
    min_size: u64,
    files_only: bool,
    home: Option<Seq<char>>,
) -> Seq<char> {
    summary_text(data.file_count, data.dir_count, binary_size(data.total_bytes))
        + "\n\nLargest Files:\n"@ + lines_text(large_enough(data.top_files@, min_size), home) + (
    if files_only {
        Seq::empty()
    } else {
        "\nLargest Directories:\n"@ + lines_text(large_enough(data.top_dirs@, min_size), home)
    })
}

/// What is printed of a scan without the interface.
pub fn report(data: &FrameData, min_size: u64, files_only: bool, home: Option<&str>) -> (r: String)
    ensures
        r@ == report_text(*data, min_size, files_only, optional_text(home)),
{
    let mut out: String = summary(
        data.file_count,
        data.dir_count,
        format_size(data.total_bytes).as_str(),
    );
    out.append("\n\nLargest Files:\n");
    push_lines(&mut out, &keep_large(&data.top_files, min_size), home);
    if !files_only {
        out.append("\nLargest Directories:\n");
        push_lines(&mut out, &keep_large(&data.top_dirs, min_size), home);
    }
    assert(out@ =~= report_text(*data, min_size, files_only, optional_text(home)));
    out
}

/// What is printed when the interface was left.
pub open spec fn closing_text(files: u64, dirs: u64, total_bytes: u64) -> Seq<char> {
    seq!['\n'] + summary_text(files, dirs, binary_size(total_bytes)) + seq!['\n']
}

/// What is printed when the interface was left.
pub fn closing_line(files: u64, dirs: u64, total_bytes: u64) -> (r: String)
    ensures
        r@ == "\n"@ + summary_text(files, dirs, binary_size(total_bytes)) + "\n"@,
        r@ == closing_text(files, dirs, total_bytes),
{
    proof {
        reveal_strlit("\n");
        assert("\n"@ =~= seq!['\n']);
    }
    let mut out: String = owned("\n");
    out.append(summary(files, dirs, format_size(total_bytes).as_str()).as_str());
    out.append("\n");
    out
}

/// What is shown are the entries of the smallest size or more, and all of them.
pub proof fn law_shown_exactly(entries: Seq<SizeEntry>, min_size: u64, e: SizeEntry)
    ensures
        large_enough(entries, min_size).contains(e) == (entries.contains(e) && e.size >= min_size),
{
    let keep = |e: SizeEntry| e.size >= min_size;
    let shown = entries.filter(keep);
    if shown.contains(e) {
        let i = choose|i: int| 0 <= i < shown.len() && shown[i] == e;
        entries.lemma_filter_pred(keep, i);
        entries.lemma_filter_contains_rev(keep, e);
    }
    if entries.contains(e) && keep(e) {
        let i = choose|i: int| 0 <= i < entries.len() && entries[i] == e;
        entries.lemma_filter_contains(keep, i);
    }
}

/// The report shows no entry below the smallest size, neither file nor directory, and all others:
/// it is the same for all lists that have the same entries of that size or more.
pub proof fn law_report_is_of_large_entries(
    a: FrameData,
    b: FrameData,
    min_size: u64,
    files_only: bool,
    home: Option<Seq<char>>,
)
    requires
        a.file_count == b.file_count,
        a.dir_count == b.dir_count,
        a.total_bytes == b.total_bytes,
        a.top_files@.filter(|e: SizeEntry| e.size >= min_size) == b.top_files@.filter(
            |e: SizeEntry| e.size >= min_size,
        ),
        files_only || a.top_dirs@.filter(|e: SizeEntry| e.size >= min_size) == b.top_dirs@.filter(
            |e: SizeEntry| e.size >= min_size,
        ),
    ensures
        report_text(a, min_size, files_only, home) == report_text(b, min_size, files_only, home),
{
}

/// The lines of a list of entries: one for each, ranked from 1 on in their order.
pub open spec fn lines_of(entries: Seq<SizeEntry>, home: Option<Seq<char>>) -> Seq<Seq<char>> {
    Seq::new(
        entries.len(),
        |i: int| line_text((i + 1) as nat, binary_size(entries[i].size), shortened(entries[i].path@, home)),
    )
}

/// The report has the numbers, a line for every file of the smallest size or more and, unless
/// they are left out, a line for every directory of that size or more, and nothing else.
pub proof fn law_report_has_these_lines(
    data: FrameData,
    min_size: u64,
    home: Option<Seq<char>>,
)
    ensures
        ({
            let files = data.top_files@.filter(|e: SizeEntry| e.size >= min_size);
            let dirs = data.top_dirs@.filter(|e: SizeEntry| e.size >= min_size);
            let total = binary_size(data.total_bytes);
            &&& report_text(data, min_size, true, home) == summary_text(
                data.file_count,
                data.dir_count,
                total,
            ) + "\n\nLargest Files:\n"@ + lines_of(files, home).flatten()
            &&& report_text(data, min_size, false, home) == report_text(data, min_size, true, home)
                + "\nLargest Directories:\n"@ + lines_of(dirs, home).flatten()
        }),
{
    let files = data.top_files@.filter(|e: SizeEntry| e.size >= min_size);
    let dirs = data.top_dirs@.filter(|e: SizeEntry| e.size >= min_size);
    lemma_lines(files, home);
    lemma_lines(dirs, home);
    assert(report_text(data, min_size, true, home) =~= summary_text(
        data.file_count,
        data.dir_count,
        binary_size(data.total_bytes),
    ) + "\n\nLargest Files:\n"@ + lines_of(files, home).flatten());
    assert(report_text(data, min_size, false, home) =~= report_text(data, min_size, true, home)
        + "\nLargest Directories:\n"@ + lines_of(dirs, home).flatten());
}

proof fn lemma_lines(entries: Seq<SizeEntry>, home: Option<Seq<char>>)
    ensures
        lines_text(entries, home) == lines_of(entries, home).flatten(),
    decreases entries.len(),
{
    let lines = lines_of(entries, home);
    lines.lemma_flatten_and_flatten_alt_are_equivalent();
    if entries.len() > 0 {
        let rest = entries.drop_last();
        lemma_lines(rest, home);
        assert(lines.drop_last() =~= lines_of(rest, home));
        lines_of(rest, home).lemma_flatten_and_flatten_alt_are_equivalent();
        assert(lines.flatten_alt() == lines.drop_last().flatten_alt() + lines.last());
    }
}

/// A line ends with the path; before it stands the size, and before that the rank, each aligned
/// to the right.
pub proof fn law_line_shape(rank: nat, size: Seq<char>, path: Seq<char>)
    ensures
        ({
            let line = line_text(rank, size, path);
            let number = decimal(rank);
            let w: int = if number.len() < 3 {
                3
            } else {
                number.len() as int
            };
            let s: int = if size.len() < 10 {
                10
            } else {
                size.len() as int
            };
            &&& line.len() == w + s + path.len() + 7
            &&& line.last() == '\n'
            &&& line.subrange(w + s + 6, w + s + 6 + path.len()) == path
            &&& line.subrange(w + s + 4 - size.len(), w + s + 4) == size
            &&& line.subrange(w + 2 - number.len(), w + 2) == number
            &&& line[w + 2] == '.'
            &&& forall|i: int|
                0 <= i < w + 2 - number.len() || w + 3 <= i < w + s + 4 - size.len() || w + s + 4 <= i
                    < w + s + 6 ==> line[i] == ' '
        }),
{
    reveal_strlit("  ");
    reveal_strlit(". ");
    reveal_strlit("\n");
    let line = line_text(rank, size, path);
    let number = decimal(rank);
    let a = padded(number, 3);
    let b = padded(size, 10);
    let w = a.len() as int;
    let s = b.len() as int;
    law_padding_is_blank(number, 3);
    law_padding_is_blank(size, 10);
    assert(a.skip(a.len() - number.len()) =~= number);
    assert(b.skip(b.len() - size.len()) =~= size);
    assert forall|i: int| 0 <= i < w implies line[2 + i] == a[i] by {}
    assert forall|i: int| 0 <= i < s implies line[w + 4 + i] == b[i] by {}
    assert(line.subrange(w + s + 6, w + s + 6 + path.len()) =~= path);
    assert(line.subrange(w + s + 4 - size.len(), w + s + 4) =~= b.skip(b.len() - size.len()));
    assert(line.subrange(w + 2 - number.len(), w + 2) =~= a.skip(a.len() - number.len()));
    assert forall|i: int|
        0 <= i < w + 2 - number.len() || w + 3 <= i < w + s + 4 - size.len() || w + s + 4 <= i < w + s
            + 6 implies line[i] == ' ' by {
        if 2 <= i < w + 2 {
            assert(line[2 + (i - 2)] == a[i - 2]);
        } else if w + 4 <= i < w + s + 4 {
            assert(line[w + 4 + (i - w - 4)] == b[i - w - 4]);
        }
    }
}

/// The numbers stand in their places: the files first, then the directories, then all bytes.
pub proof fn law_summary_shape(files: u64, dirs: u64, total: Seq<char>)
    ensures
        ({
            let text = summary_text(files, dirs, total);
            let behind = " files, "@ + decimal(dirs as nat) + " dirs, "@ + total + " total"@;
            &&& text == "Scanned "@ + decimal(files as nat) + behind
        }),
{
    let behind = " files, "@ + decimal(dirs as nat) + " dirs, "@ + total + " total"@;
    assert(summary_text(files, dirs, total) =~= "Scanned "@ + decimal(files as nat) + behind);
}

/// The interface leaves the numbers on a line of their own: the same that the report begins with.
pub proof fn law_closing_line(data: FrameData, min_size: u64, files_only: bool, home: Option<Seq<char>>)
    ensures
        ({
            let line = closing_text(data.file_count, data.dir_count, data.total_bytes);
            &&& line.len() >= 2
            &&& line[0] == '\n'
            &&& line.last() == '\n'
            &&& line.subrange(1, line.len() - 1).is_prefix_of(
                report_text(data, min_size, files_only, home),
            )
            &&& line.subrange(1, line.len() - 1) == "Scanned "@ + decimal(data.file_count as nat)
                + " files, "@ + decimal(data.dir_count as nat) + " dirs, "@ + binary_size(
                data.total_bytes,
            ) + " total"@
        }),
{
    let line = closing_text(data.file_count, data.dir_count, data.total_bytes);
    let inner = summary_text(data.file_count, data.dir_count, binary_size(data.total_bytes));
    let all = report_text(data, min_size, files_only, home);
    assert(line.subrange(1, line.len() - 1) =~= inner);
    assert(inner =~= all.subrange(0, inner.len() as int));
}

} // verus!
