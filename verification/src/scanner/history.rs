//! What holds of a scan as a whole, whatever it was told of and in whatever order.

use vstd::prelude::*;

use crate::dirs::{
    belonging, belongs_to, bytes_within, found_where, is_counted_dir, is_within, law_dir_adds_up,
    law_largest_dirs_are_listed, lemma_found_exactly, lemma_found_same, visited_within, without_end,
    DirTree, Found, Visit,
};
use crate::paths::joined;
use crate::ranking::{is_top, lemma_all_taken, ranked, SizeEntry};
use crate::scanner::listing::{
    excluded, is_counted_file, law_every_dir_is_walked, law_every_file_counts,
    law_only_counted_files, law_only_walked_dirs, law_sizes_add_up, listed_dirs, listed_files,
    sum_sizes, views, Entry, EntryKind,
};
use crate::scanner::{
    advanced, law_scan_lists_largest, lists_largest, next_dirs, shows_dirs, took_in, walked,
    wrapped, Scan, ScanEvent, SubDir,
};
use crate::state::ScanOptions;

verus! {

/// A directory that was read, and what it was found to hold.
pub struct Reading {
    pub dir: int,
    pub entries: Seq<Entry>,
}

/// Whether the entry is a file or a directory.
pub open spec fn has_name(e: Entry) -> bool {
    e.kind == EntryKind::File || e.kind == EntryKind::Dir
}

/// The files and directories of a listing have names as a file system gives them: not empty,
/// without the separator, and no two the same.
pub open spec fn is_tidy(entries: Seq<Entry>, separator: char) -> bool {
    &&& forall|i: int|
        0 <= i < entries.len() && has_name(#[trigger] entries[i]) ==> entries[i].name@.len() > 0
            && !entries[i].name@.contains(separator)
    &&& forall|i: int, j: int|
        0 <= i < j < entries.len() && has_name(#[trigger] entries[i]) && has_name(
            #[trigger] entries[j],
        ) ==> entries[i].name@ != entries[j].name@
}

/// The paths and sizes of all files that count in `readings` of directories with these `paths`.
pub open spec fn counted_in(
    paths: Seq<Seq<char>>,
    readings: Seq<Reading>,
    options: ScanOptions,
    separator: char,
) -> Seq<(Seq<char>, u64)>
    decreases readings.len(),
{
    if readings.len() == 0 {
        Seq::empty()
    } else {
        let last = readings.last();
        counted_in(paths, readings.drop_last(), options, separator) + listed_files(
            paths[last.dir],
            last.entries,
            options,
            separator,
        )
    }
}

/// The directory `d` was named by the entry `k` of the reading `j`, whose directory holds it.
pub open spec fn is_named(
    parents: Seq<Option<usize>>,
    paths: Seq<Seq<char>>,
    readings: Seq<Reading>,
    separator: char,
    d: int,
    j: int,
    k: int,
) -> bool {
    &&& 0 <= j < readings.len()
    &&& 0 <= k < readings[j].entries.len()
    &&& readings[j].entries[k].kind == EntryKind::Dir
    &&& paths[d] == joined(paths[readings[j].dir], readings[j].entries[k].name@, separator)
    &&& readings[j].dir < d
    &&& parents[d] is Some && parents[d]->0 == readings[j].dir
}

/// The directories with these `paths`, held by these `parents`, are the root and those that
/// `readings` named, each read once at most and tidy.
pub open spec fn are_known(
    parents: Seq<Option<usize>>,
    paths: Seq<Seq<char>>,
    readings: Seq<Reading>,
    separator: char,
) -> bool {
    &&& paths.len() > 0
    &&& parents.len() == paths.len()
    &&& parents[0] is None
    &&& forall|j: int| 0 <= j < readings.len() ==> 0 <= (#[trigger] readings[j]).dir < paths.len()
    &&& forall|j: int|
        0 <= j < readings.len() ==> is_tidy((#[trigger] readings[j]).entries, separator)
    &&& forall|i: int, j: int|
        0 <= i < j < readings.len() ==> (#[trigger] readings[i]).dir != (#[trigger] readings[j]).dir
    &&& forall|d: int|
        0 < d < paths.len() ==> (exists|j: int, k: int|
            is_named(parents, paths, readings, separator, d, j, k)) && (#[trigger] paths[d]).len()
            > paths[0].len() && paths[d].last() != separator
    &&& forall|c: int, d: int|
        0 <= c < d < paths.len() ==> #[trigger] paths[c] != #[trigger] paths[d]
}

/// The bytes of the files that count in a reading of one of the directories with these `paths`.
pub open spec fn bytes_read(
    paths: Seq<Seq<char>>,
    reading: Reading,
    options: ScanOptions,
    separator: char,
) -> nat {
    sum_sizes(listed_files(paths[reading.dir], reading.entries, options, separator))
}

/// The bytes that `readings` add to the directories: those of each reading that has any.
pub open spec fn visits_of(
    paths: Seq<Seq<char>>,
    readings: Seq<Reading>,
    options: ScanOptions,
    separator: char,
) -> Seq<Visit>
    decreases readings.len(),
{
    if readings.len() == 0 {
        Seq::empty()
    } else {
        let before = visits_of(paths, readings.drop_last(), options, separator);
        let bytes = bytes_read(paths, readings.last(), options, separator);
        if bytes > 0 {
            before.push(Visit { dir: readings.last().dir, bytes })
        } else {
            before
        }
    }
}

/// The bytes of the files that count in the `readings` of `above` and of all directories below
/// it.
pub open spec fn bytes_read_within(
    parents: Seq<Option<usize>>,
    paths: Seq<Seq<char>>,
    readings: Seq<Reading>,
    options: ScanOptions,
    separator: char,
    above: int,
) -> nat
    decreases readings.len(),
{
    if readings.len() == 0 {
        0
    } else {
        bytes_read_within(parents, paths, readings.drop_last(), options, separator, above) + (
        if is_within(parents, readings.last().dir, above) {
            bytes_read(paths, readings.last(), options, separator)
        } else {
            0
        })
    }
}

/// The files that count in `readings`, each with the number of its directory.
pub open spec fn files_read(
    paths: Seq<Seq<char>>,
    readings: Seq<Reading>,
    options: ScanOptions,
    separator: char,
) -> Seq<(int, (Seq<char>, u64))>
    decreases readings.len(),
{
    if readings.len() == 0 {
        Seq::empty()
    } else {
        let last = readings.last();
        files_read(paths, readings.drop_last(), options, separator) + listed_files(
            paths[last.dir],
            last.entries,
            options,
            separator,
        ).map_values(|f: (Seq<char>, u64)| (last.dir, f))
    }
}

/// Files that were listed for directories, as they read.
pub open spec fn found_views(found: Seq<Found>) -> Seq<(int, (Seq<char>, u64))> {
    found.map_values(|f: Found| (f.dir, (f.entry.path@, f.entry.size)))
}

/// The scan has taken in just these `readings`: it counts one directory for each and all bytes
/// of their files, adds the bytes to the directories unless it leaves these out, and lists the
/// largest of the files.
pub open spec fn accounts_for(run: Scan, readings: Seq<Reading>) -> bool {
    let paths = run.dirs.paths();
    let all = counted_in(paths, readings, run.options, run.separator);
    &&& forall|j: int| 0 <= j < readings.len() ==> 0 <= (#[trigger] readings[j]).dir < paths.len()
    &&& run.state.dir_count == wrapped(readings.len() as int)
    &&& run.state.file_count == all.len()
    &&& run.state.total_bytes == sum_sizes(all)
    &&& !run.files_only ==> run.dirs.visits@ == visits_of(
        paths,
        readings,
        run.options,
        run.separator,
    ) && found_views(run.dirs.found@) == files_read(
        paths,
        readings,
        run.options,
        run.separator,
    )
    &&& exists|files: Seq<SizeEntry>| #[trigger]
        views(files) == all && lists_largest(run, files.to_multiset())
}

/// `dir` with a separator behind it, unless it ends in one or is empty.
spec fn with_separator(dir: Seq<char>, separator: char) -> Seq<char> {
    if dir.len() == 0 || dir.last() == separator {
        dir
    } else {
        dir.push(separator)
    }
}

/// A path leads back to its name and, but for a separator, to its directory.
proof fn lemma_joined_apart(a: Seq<char>, m: Seq<char>, b: Seq<char>, n: Seq<char>, separator: char)
    requires
        !m.contains(separator),
        !n.contains(separator),
        joined(a, m, separator) == joined(b, n, separator),
    ensures
        m == n,
        with_separator(a, separator) == with_separator(b, separator),
    decreases (if m.len() < n.len() {
        0int
    } else {
        1
    }),
{
    let x = with_separator(a, separator);
    let y = with_separator(b, separator);
    let s = x + m;
    assert(s == joined(a, m, separator));
    assert(s == y + n);
    if m.len() < n.len() {
        let at = x.len() - 1;
        assert(x.len() > y.len());
        assert(x[at] == separator);
        assert(s[at] == separator);
        assert(n[at - y.len()] == separator);
        assert(n.contains(separator));
    } else if n.len() < m.len() {
        lemma_joined_apart(b, n, a, m, separator);
    } else {
        assert(x =~= s.take(x.len() as int));
        assert(y =~= s.take(x.len() as int));
        assert(m =~= s.skip(x.len() as int));
        assert(n =~= s.skip(x.len() as int));
    }
}

/// Files and directories in different directories have different paths.
proof fn lemma_dirs_apart(
    parents: Seq<Option<usize>>,
    paths: Seq<Seq<char>>,
    readings: Seq<Reading>,
    separator: char,
    c: int,
    d: int,
    m: Seq<char>,
    n: Seq<char>,
)
    requires
        are_known(parents, paths, readings, separator),
        0 <= c < paths.len(),
        0 <= d < paths.len(),
        c != d,
        !m.contains(separator),
        !n.contains(separator),
    ensures
        joined(paths[c], m, separator) != joined(paths[d], n, separator),
{
    if joined(paths[c], m, separator) == joined(paths[d], n, separator) {
        lemma_joined_apart(paths[c], m, paths[d], n, separator);
        let a = paths[c];
        let b = paths[d];
        assert(a != b);
        let x = with_separator(a, separator);
        let y = with_separator(b, separator);
        if x.len() == a.len() + 1 && y.len() == b.len() + 1 {
            assert(a =~= x.drop_last());
            assert(b =~= y.drop_last());
        }
    }
}

/// The files of one listing have different paths.
proof fn lemma_files_apart(dir: Seq<char>, entries: Seq<Entry>, options: ScanOptions, separator: char)
    requires
        is_tidy(entries, separator),
    ensures
        forall|i: int, j: int|
            0 <= i < j < listed_files(dir, entries, options, separator).len() ==> (
            #[trigger] listed_files(dir, entries, options, separator)[i]).0 != (
            #[trigger] listed_files(dir, entries, options, separator)[j]).0,
    decreases entries.len(),
{
    if entries.len() > 0 {
        let rest = entries.drop_last();
        let e = entries[entries.len() - 1];
        assert forall|i: int| 0 <= i < rest.len() implies rest[i] == entries[i] by {}
        assert(is_tidy(rest, separator));
        lemma_files_apart(dir, rest, options, separator);
        let before = listed_files(dir, rest, options, separator);
        let all = listed_files(dir, entries, options, separator);
        assert forall|i: int, j: int| 0 <= i < j < all.len() implies (#[trigger] all[i]).0 != (
        #[trigger] all[j]).0 by {
            if j < before.len() {
                assert(before[i].0 != before[j].0);
            } else {
                assert(is_counted_file(e, options));
                law_only_counted_files(dir, rest, options, separator, i);
                let k = choose|k: int|
                    0 <= k < rest.len() && is_counted_file(#[trigger] rest[k], options)
                        && before[i] == (joined(dir, rest[k].name@, separator), rest[k].size);
                assert(has_name(entries[k]) && has_name(entries[entries.len() - 1]));
                if all[i].0 == all[j].0 {
                    lemma_joined_apart(dir, entries[k].name@, dir, e.name@, separator);
                }
            }
        }
    }
}

/// A file that counts in `readings` is an entry of one of them.
proof fn lemma_counted_from(
    paths: Seq<Seq<char>>,
    readings: Seq<Reading>,
    options: ScanOptions,
    separator: char,
    i: int,
) -> (at: (int, int))
    requires
        0 <= i < counted_in(paths, readings, options, separator).len(),
    ensures
        0 <= at.0 < readings.len(),
        0 <= at.1 < readings[at.0].entries.len(),
        is_counted_file(readings[at.0].entries[at.1], options),
        counted_in(paths, readings, options, separator)[i] == (
            joined(paths[readings[at.0].dir], readings[at.0].entries[at.1].name@, separator),
            readings[at.0].entries[at.1].size,
        ),
    decreases readings.len(),
{
    let rest = readings.drop_last();
    let before = counted_in(paths, rest, options, separator);
    if i < before.len() {
        let at = lemma_counted_from(paths, rest, options, separator, i);
        assert(rest[at.0] == readings[at.0]);
        at
    } else {
        let last = readings.last();
        let dir = paths[last.dir];
        let j = i - before.len();
        law_only_counted_files(dir, last.entries, options, separator, j);
        let k = choose|k: int|
            0 <= k < last.entries.len() && is_counted_file(#[trigger] last.entries[k], options)
                && listed_files(dir, last.entries, options, separator)[j] == (
                joined(dir, last.entries[k].name@, separator),
                last.entries[k].size,
            );
        (readings.len() - 1, k)
    }
}

/// No path counts twice.
proof fn lemma_counted_apart(
    parents: Seq<Option<usize>>,
    paths: Seq<Seq<char>>,
    all: Seq<Reading>,
    n: int,
    options: ScanOptions,
    separator: char,
)
    requires
        are_known(parents, paths, all, separator),
        0 <= n <= all.len(),
    ensures
        forall|i: int, j: int|
            0 <= i < j < counted_in(paths, all.take(n), options, separator).len() ==> (
            #[trigger] counted_in(paths, all.take(n), options, separator)[i]).0 != (
            #[trigger] counted_in(paths, all.take(n), options, separator)[j]).0,
    decreases n,
{
    if n > 0 {
        let readings = all.take(n);
        let rest = all.take(n - 1);
        assert(readings.drop_last() =~= rest);
        lemma_counted_apart(parents, paths, all, n - 1, options, separator);
        let last = all[n - 1];
        assert(readings.last() == last);
        let dir = paths[last.dir];
        assert(is_tidy(last.entries, separator));
        lemma_files_apart(dir, last.entries, options, separator);
        let before = counted_in(paths, rest, options, separator);
        let here = listed_files(dir, last.entries, options, separator);
        let both = counted_in(paths, readings, options, separator);
        assert(both == before + here);
        assert forall|i: int, j: int| 0 <= i < j < both.len() implies (#[trigger] both[i]).0 != (
        #[trigger] both[j]).0 by {
            let m = before.len();
            if j < m {
                assert(before[i].0 != before[j].0);
            } else if i >= m {
                assert(here[i - m].0 != here[j - m].0);
            } else {
                let at = lemma_counted_from(paths, rest, options, separator, i);
                let r = all[at.0];
                assert(rest[at.0] == r);
                law_only_counted_files(dir, last.entries, options, separator, j - m);
                let k = choose|k: int|
                    0 <= k < last.entries.len() && is_counted_file(
                        #[trigger] last.entries[k],
                        options,
                    ) && here[j - m] == (
                        joined(dir, last.entries[k].name@, separator),
                        last.entries[k].size,
                    );
                assert(is_tidy(r.entries, separator));
                assert(has_name(r.entries[at.1]) && has_name(last.entries[k]));
                assert(all[at.0].dir != all[n - 1].dir);
                lemma_dirs_apart(
                    parents,
                    paths,
                    all,
                    separator,
                    r.dir,
                    last.dir,
                    r.entries[at.1].name@,
                    last.entries[k].name@,
                );
            }
        }
    }
}

/// What was counted stays counted when more directories become known.
proof fn lemma_counted_stays(
    paths: Seq<Seq<char>>,
    more: Seq<Seq<char>>,
    readings: Seq<Reading>,
    options: ScanOptions,
    separator: char,
)
    requires
        forall|j: int| 0 <= j < readings.len() ==> 0 <= (#[trigger] readings[j]).dir < paths.len(),
    ensures
        counted_in(paths + more, readings, options, separator) == counted_in(
            paths,
            readings,
            options,
            separator,
        ),
        visits_of(paths + more, readings, options, separator) == visits_of(
            paths,
            readings,
            options,
            separator,
        ),
        files_read(paths + more, readings, options, separator) == files_read(
            paths,
            readings,
            options,
            separator,
        ),
    decreases readings.len(),
{
    if readings.len() > 0 {
        let rest = readings.drop_last();
        assert forall|j: int| 0 <= j < rest.len() implies 0 <= (#[trigger] rest[j]).dir
            < paths.len() by {
            assert(rest[j] == readings[j]);
        }
        lemma_counted_stays(paths, more, rest, options, separator);
        assert(0 <= readings[readings.len() - 1].dir < paths.len());
    }
}

/// The places of the directories to walk are in order.
proof fn lemma_places_rise(entries: Seq<Entry>, options: ScanOptions)
    requires
        entries.len() <= usize::MAX,
    ensures
        forall|i: int, j: int|
            0 <= i < j < listed_dirs(entries, options).len() ==> (#[trigger] listed_dirs(
                entries,
                options,
            )[i]) < (#[trigger] listed_dirs(entries, options)[j]),
{
    law_every_dir_is_walked(entries, options);
}

/// The directories stay known when one more is read.
proof fn lemma_known_grows(
    parents: Seq<Option<usize>>,
    paths: Seq<Seq<char>>,
    readings: Seq<Reading>,
    options: ScanOptions,
    separator: char,
    reading: Reading,
    places: Seq<usize>,
)
    requires
        are_known(parents, paths, readings, separator),
        0 <= reading.dir < paths.len(),
        reading.dir <= usize::MAX,
        forall|j: int| 0 <= j < readings.len() ==> (#[trigger] readings[j]).dir != reading.dir,
        is_tidy(reading.entries, separator),
        reading.entries.len() <= usize::MAX,
        places.len() == 0 || places == listed_dirs(reading.entries, options),
    ensures
        are_known(
            parents + Seq::new(places.len(), |j: int| Some(reading.dir as usize)),
            paths + Seq::new(
                places.len(),
                |j: int|
                    joined(
                        paths[reading.dir],
                        reading.entries[places[j] as int].name@,
                        separator,
                    ),
            ),
            readings.push(reading),
            separator,
        ),
{
    let entries = reading.entries;
    let here = paths[reading.dir];
    let more = Seq::new(
        places.len(),
        |j: int| joined(here, entries[places[j] as int].name@, separator),
    );
    let all = paths + more;
    let holders = parents + Seq::new(places.len(), |j: int| Some(reading.dir as usize));
    let read = readings.push(reading);
    let n = paths.len();
    lemma_places_rise(entries, options);
    assert forall|j: int| 0 <= j < places.len() implies (#[trigger] places[j]) < entries.len()
        && entries[places[j] as int].kind == EntryKind::Dir by {
        law_only_walked_dirs(entries, options, j);
    }
    assert forall|j: int| 0 <= j < read.len() implies 0 <= (#[trigger] read[j]).dir < all.len()
        && is_tidy(read[j].entries, separator) by {
        if j < readings.len() {
            assert(read[j] == readings[j]);
        }
    }
    assert forall|i: int, j: int| 0 <= i < j < read.len() implies (#[trigger] read[i]).dir != (
    #[trigger] read[j]).dir by {
        assert(readings[i].dir != reading.dir);
        if j < readings.len() {
            assert(readings[i].dir != readings[j].dir);
        }
    }
    assert(reading.dir > 0 ==> here.len() > paths[0].len());
    assert forall|d: int| 0 < d < all.len() implies (exists|j: int, k: int|
        is_named(holders, all, read, separator, d, j, k)) && (#[trigger] all[d]).len() > all[0].len()
        && all[d].last() != separator by {
        if d < n {
            assert(all[d] == paths[d]);
            let (j, k) = choose|j: int, k: int| is_named(parents, paths, readings, separator, d, j, k);
            assert(readings[j].dir < n);
            assert(read[j] == readings[j]);
            assert(is_named(holders, all, read, separator, d, j, k));
        } else {
            let place = places[d - n] as int;
            let name = entries[place].name@;
            assert(read[readings.len() as int] == reading);
            assert(is_named(holders, all, read, separator, d, readings.len() as int, place));
            assert(has_name(entries[place]));
            assert(all[d].last() == name.last());
            assert(name.contains(name.last()));
        }
    }
    assert forall|c: int, d: int| 0 <= c < d < all.len() implies #[trigger] all[c]
        != #[trigger] all[d] by {
        if d < n {
            assert(paths[c] != paths[d]);
        } else {
            let place = places[d - n] as int;
            let name = entries[place].name@;
            assert(has_name(entries[place]));
            if c >= n {
                assert(places[c - n] < places[d - n]);
                let other = places[c - n] as int;
                assert(has_name(entries[other]));
                if all[c] == all[d] {
                    lemma_joined_apart(here, entries[other].name@, here, name, separator);
                }
            } else if c == 0 {
                assert(all[d].len() > all[0].len());
            } else {
                assert(paths[c].len() > paths[0].len());
                let (j, k) = choose|j: int, k: int| is_named(parents, paths, readings, separator, c, j, k);
                let r = readings[j];
                assert(is_tidy(r.entries, separator));
                assert(has_name(r.entries[k]));
                lemma_dirs_apart(
                    parents,
                    paths,
                    readings,
                    separator,
                    r.dir,
                    reading.dir,
                    r.entries[k].name@,
                    name,
                );
            }
        }
    }
}

/// The readings with the one that `event` tells of.
pub open spec fn with_event(readings: Seq<Reading>, event: ScanEvent) -> Seq<Reading> {
    match event {
        ScanEvent::Listed { dir, depth, entries } => readings.push(
            Reading { dir: dir as int, entries: entries@ },
        ),
        _ => readings,
    }
}

proof fn lemma_sums_add(a: Seq<(Seq<char>, u64)>, b: Seq<(Seq<char>, u64)>)
    ensures
        sum_sizes(a + b) == sum_sizes(a) + sum_sizes(b),
{
    law_sizes_add_up(a, b, Seq::empty(), 0);
}

/// The paths of the directories that `event` makes known.
spec fn new_paths(before: Scan, dir: int, depth: int, entries: Seq<Entry>) -> Seq<Seq<char>> {
    let places = next_dirs(before, depth, entries);
    Seq::new(
        places.len(),
        |j: int|
            joined(
                before.dirs.paths()[dir],
                entries[places[j] as int].name@,
                before.separator,
            ),
    )
}

/// Whatever a scan is told of, and in whatever order, it accounts for just the directories that
/// were read. A new scan accounts for none.
pub proof fn law_scan_accounts(
    before: Scan,
    after: Scan,
    event: ScanEvent,
    subs: Seq<SubDir>,
    readings: Seq<Reading>,
)
    requires
        before.wf(),
        before.can_take(event),
        accounts_for(before, readings),
        advanced(before, after, event, subs),
    ensures
        accounts_for(after, with_event(readings, event)),
{
    let paths = before.dirs.paths();
    let all = counted_in(paths, readings, before.options, before.separator);
    let files = choose|files: Seq<SizeEntry>| #[trigger]
        views(files) == all && lists_largest(before, files.to_multiset());
    match event {
        ScanEvent::Listed { dir, depth, entries } => {
            assert(walked(before, after, dir as int, depth as int, entries@, subs));
            let reading = Reading { dir: dir as int, entries: entries@ };
            let new = choose|new: Seq<SizeEntry>|
                #![trigger views(new)]
                views(new) == before.files_in_listing(dir as int, entries@) && took_in(
                    before,
                    after,
                    dir as int,
                    depth as int,
                    entries@,
                    new,
                    subs,
                );
            law_scan_lists_largest(
                before,
                after,
                dir as int,
                depth as int,
                entries@,
                new,
                subs,
                files.to_multiset(),
            );
            let both = files + new;
            vstd::seq_lib::lemma_multiset_commutative(files, new);
            assert(views(both) =~= views(files) + views(new));
            let more = new_paths(before, dir as int, depth as int, entries@);
            assert(after.dirs.paths() =~= paths + more);
            lemma_counted_stays(paths, more, readings, before.options, before.separator);
            let read = readings.push(reading);
            assert(read.drop_last() =~= readings);
            assert((paths + more)[dir as int] == paths[dir as int]);
            lemma_sums_add(all, views(new));
            assert(views(both) == counted_in(
                after.dirs.paths(),
                read,
                after.options,
                after.separator,
            ));
            assert(lists_largest(after, both.to_multiset()));
            assert(views(new).len() == new.len());
            if !before.files_only {
                let found = before.dirs.found@;
                let here = new.map_values(|e: SizeEntry| Found { dir: dir as int, entry: e });
                assert(after.dirs.found@ =~= found + here);
                let shown = views(new).map_values(|f: (Seq<char>, u64)| (reading.dir, f));
                assert(found_views(here) =~= shown);
                assert(found_views(found + here) =~= found_views(found) + found_views(here));
            }
            assert forall|j: int| 0 <= j < read.len() implies 0 <= (#[trigger] read[j]).dir
                < after.dirs.paths().len() by {
                if j < readings.len() {
                    assert(read[j] == readings[j]);
                }
            }
        },
        _ => {
            assert(lists_largest(after, files.to_multiset()));
            assert(views(files) == counted_in(
                after.dirs.paths(),
                readings,
                after.options,
                after.separator,
            ));
        },
    }
}

/// As long as no directory is read twice and their names are tidy, the directories of a scan are
/// the root and those that its readings named, with no path twice. A new scan knows the root.
pub proof fn law_dirs_stay_known(
    before: Scan,
    after: Scan,
    event: ScanEvent,
    subs: Seq<SubDir>,
    readings: Seq<Reading>,
)
    requires
        before.can_take(event),
        are_known(before.dirs.parents(), before.dirs.paths(), readings, before.separator),
        advanced(before, after, event, subs),
        event matches ScanEvent::Listed { dir, depth, entries } ==> is_tidy(
            entries@,
            before.separator,
        ) && forall|j: int| 0 <= j < readings.len() ==> (#[trigger] readings[j]).dir != dir,
    ensures
        are_known(after.dirs.parents(), after.dirs.paths(), with_event(readings, event), after.separator),
{
    if let ScanEvent::Listed { dir, depth, entries } = event {
        assert(walked(before, after, dir as int, depth as int, entries@, subs));
        let paths = before.dirs.paths();
        let more = new_paths(before, dir as int, depth as int, entries@);
        assert(after.dirs.paths() =~= paths + more);
        assert(entries.len() == entries@.len());
        let places = next_dirs(before, depth as int, entries@);
        assert(after.dirs.parents() =~= before.dirs.parents() + Seq::new(
            places.len(),
            |j: int| Some(dir as int as usize),
        ));
        lemma_known_grows(
            before.dirs.parents(),
            paths,
            readings,
            before.options,
            before.separator,
            Reading { dir: dir as int, entries: entries@ },
            places,
        );
    }
}

/// A scan lists the largest of the files of the directories that were read: the list is ranked
/// and no longer than it may be, every file in it is one of them, with its size; and where one
/// of them is not listed, the list is as long as it may be and holds no smaller file.
pub proof fn law_largest_files_are_listed(run: Scan, readings: Seq<Reading>)
    requires
        accounts_for(run, readings),
    ensures
        ({
            let list = run.state.lists.top_files@;
            let all = counted_in(run.dirs.paths(), readings, run.options, run.separator);
            &&& ranked(list)
            &&& list.len() <= run.top_n
            &&& forall|i: int|
                0 <= i < list.len() ==> all.contains(((#[trigger] list[i]).path@, list[i].size))
            &&& forall|f: int, i: int|
                0 <= f < all.len() && !views(list).contains(#[trigger] all[f]) && 0 <= i < list.len()
                    ==> (#[trigger] list[i]).size >= all[f].1
            &&& forall|f: int|
                0 <= f < all.len() && !views(list).contains(#[trigger] all[f]) ==> list.len()
                    == run.top_n
        }),
{
    broadcast use vstd::seq_lib::group_to_multiset_ensures;
    broadcast use vstd::multiset::group_multiset_axioms;

    let list = run.state.lists.top_files@;
    let all = counted_in(run.dirs.paths(), readings, run.options, run.separator);
    let files = choose|files: Seq<SizeEntry>| #[trigger]
        views(files) == all && lists_largest(run, files.to_multiset());
    let from = files.to_multiset();
    assert(files.len() == views(files).len());
    assert forall|i: int| 0 <= i < list.len() implies all.contains(
        ((#[trigger] list[i]).path@, list[i].size),
    ) by {
        assert(list.contains(list[i]));
        assert(list.to_multiset().count(list[i]) <= from.count(list[i]));
        let k = choose|k: int| 0 <= k < files.len() && files[k] == list[i];
        assert(views(files)[k] == (list[i].path@, list[i].size));
    }
    assert forall|f: int| 0 <= f < all.len() && !views(list).contains(#[trigger] all[f]) implies list.len()
        == run.top_n && forall|i: int| 0 <= i < list.len() ==> (#[trigger] list[i]).size
        >= all[f].1 by {
        let e = files[f];
        assert(views(files)[f] == (e.path@, e.size));
        assert(!list.contains(e)) by {
            if list.contains(e) {
                let i = choose|i: int| 0 <= i < list.len() && list[i] == e;
                assert(views(list)[i] == all[f]);
            }
        }
        assert(files.contains(e));
        assert(list.to_multiset().count(e) < from.count(e));
        if from.len() <= run.top_n {
            lemma_all_taken(list, from, e);
        }
    }
}

/// No path is listed twice, where no directory was read twice and their names are tidy.
pub proof fn law_no_path_twice(run: Scan, readings: Seq<Reading>)
    requires
        accounts_for(run, readings),
        are_known(run.dirs.parents(), run.dirs.paths(), readings, run.separator),
    ensures
        forall|i: int, j: int|
            0 <= i < j < run.state.lists.top_files@.len() ==> (
            #[trigger] run.state.lists.top_files@[i]).path@ != (
            #[trigger] run.state.lists.top_files@[j]).path@,
{
    broadcast use vstd::seq_lib::group_to_multiset_ensures;
    broadcast use vstd::multiset::group_multiset_axioms;

    let paths = run.dirs.paths();
    let list = run.state.lists.top_files@;
    let all = counted_in(paths, readings, run.options, run.separator);
    let files = choose|files: Seq<SizeEntry>| #[trigger]
        views(files) == all && lists_largest(run, files.to_multiset());
    let from = files.to_multiset();
    assert(readings.take(readings.len() as int) =~= readings);
    lemma_counted_apart(run.dirs.parents(), paths, readings, readings.len() as int, run.options, run.separator);
    assert(files.len() == views(files).len());
    assert forall|i: int, j: int| 0 <= i < j < files.len() implies (#[trigger] files[i]).path@ != (
    #[trigger] files[j]).path@ by {
        assert(views(files)[i].0 != views(files)[j].0);
    }
    assert(files.no_duplicates());
    files.lemma_multiset_has_no_duplicates();
    assert(list.no_duplicates()) by {
        assert forall|x: SizeEntry| list.to_multiset().contains(x) implies list.to_multiset().count(x)
            == 1 by {
            assert(list.to_multiset().count(x) <= from.count(x));
            assert(from.contains(x));
        }
        list.lemma_multiset_has_no_duplicates_conv();
    }
    assert forall|i: int| 0 <= i < list.len() implies files.contains(#[trigger] list[i]) by {
        assert(list.contains(list[i]));
        assert(list.to_multiset().count(list[i]) <= from.count(list[i]));
    }
    assert forall|i: int, j: int| 0 <= i < j < list.len() implies (#[trigger] list[i]).path@ != (
    #[trigger] list[j]).path@ by {
        assert(list[i] != list[j]);
        let k = choose|k: int| 0 <= k < files.len() && files[k] == list[i];
        let l = choose|l: int| 0 <= l < files.len() && files[l] == list[j];
        if k < l {
            assert(files[k].path@ != files[l].path@);
        } else {
            assert(files[l].path@ != files[k].path@);
        }
    }
}

proof fn lemma_visits_add_up(
    parents: Seq<Option<usize>>,
    paths: Seq<Seq<char>>,
    readings: Seq<Reading>,
    options: ScanOptions,
    separator: char,
    above: int,
)
    ensures
        bytes_within(parents, visits_of(paths, readings, options, separator), above)
            == bytes_read_within(parents, paths, readings, options, separator, above),
    decreases readings.len(),
{
    if readings.len() > 0 {
        let rest = readings.drop_last();
        lemma_visits_add_up(parents, paths, rest, options, separator, above);
        let before = visits_of(paths, rest, options, separator);
        let visits = visits_of(paths, readings, options, separator);
        if visits.len() > before.len() {
            assert(visits.drop_last() =~= before);
        }
    }
}

/// The size of a directory is the sum of the files that count in the readings of it and of all
/// directories below it, in whatever order they were read.
pub proof fn law_directory_sizes(run: Scan, readings: Seq<Reading>, dir: int)
    requires
        run.wf(),
        !run.files_only,
        accounts_for(run, readings),
        0 <= dir < run.dirs.nodes@.len(),
    ensures
        run.dirs.nodes@[dir].size == bytes_read_within(
            run.dirs.parents(),
            run.dirs.paths(),
            readings,
            run.options,
            run.separator,
            dir,
        ),
{
    law_dir_adds_up(run.dirs, dir);
    lemma_visits_add_up(
        run.dirs.parents(),
        run.dirs.paths(),
        readings,
        run.options,
        run.separator,
        dir,
    );
}

proof fn lemma_prefix_shorter(dir: Seq<char>, separator: char)
    requires
        dir.len() > 0,
    ensures
        without_end(dir, separator).push(separator).is_prefix_of(with_separator(dir, separator)),
        dir.last() != separator ==> without_end(dir, separator) == dir,
    decreases dir.len(),
{
    if dir.last() == separator {
        let rest = dir.drop_last();
        assert(dir =~= rest.push(separator));
        if rest.len() == 0 {
            assert(without_end(rest, separator) =~= rest);
            let p = rest.push(separator);
            assert(p =~= dir.subrange(0, p.len() as int));
        } else {
            lemma_prefix_shorter(rest, separator);
            let p = without_end(rest, separator).push(separator);
            if rest.last() == separator {
                assert(p =~= rest.subrange(0, p.len() as int));
                assert(p =~= dir.subrange(0, p.len() as int));
            } else {
                assert(p =~= dir);
                assert(p =~= dir.subrange(0, p.len() as int));
            }
        }
    } else {
        let p = dir.push(separator);
        assert(p =~= p.subrange(0, p.len() as int));
    }
}

proof fn lemma_prefix_of_longer(a: Seq<char>, b: Seq<char>, c: Seq<char>)
    requires
        a.is_prefix_of(b),
        b.is_prefix_of(c),
    ensures
        a.is_prefix_of(c),
{
    assert forall|i: int| 0 <= i < a.len() implies a[i] == c[i] by {
        assert(a[i] == b.subrange(0, a.len() as int)[i]);
        assert(b[i] == c.subrange(0, b.len() as int)[i]);
    }
    assert(a =~= c.subrange(0, a.len() as int));
}

/// A prefix that ends in a separator lies before a name without one.
proof fn lemma_prefix_before_name(p: Seq<char>, x: Seq<char>, name: Seq<char>, separator: char)
    requires
        p.len() > 0,
        p.last() == separator,
        !name.contains(separator),
    ensures
        p.is_prefix_of(x + name) == p.is_prefix_of(x),
{
    if p.is_prefix_of(x + name) {
        assert forall|i: int| 0 <= i < p.len() implies p[i] == (x + name)[i] by {
            assert(p[i] == (x + name).subrange(0, p.len() as int)[i]);
        }
        if p.len() > x.len() {
            let at = p.len() - 1;
            assert(name[at - x.len()] == separator);
        } else {
            assert(p =~= x.subrange(0, p.len() as int));
        }
    }
    if p.is_prefix_of(x) {
        assert(x =~= (x + name).subrange(0, x.len() as int));
        lemma_prefix_of_longer(p, x, x + name);
    }
}

proof fn lemma_belongs(
    parents: Seq<Option<usize>>,
    paths: Seq<Seq<char>>,
    readings: Seq<Reading>,
    separator: char,
    c: int,
    d: int,
)
    requires
        are_known(parents, paths, readings, separator),
        paths[0].len() > 0,
        0 <= c < paths.len(),
        0 <= d < paths.len(),
    ensures
        belongs_to(paths[c], paths[d], separator) == is_within(parents, c, d),
    decreases c,
{
    let p = without_end(paths[d], separator).push(separator);
    if d > 0 {
        assert(paths[d].len() > paths[0].len());
    }
    lemma_prefix_shorter(paths[d], separator);
    assert(p.last() == separator);
    if c == d {
    } else if c == 0 {
        assert(paths[0] != paths[d]);
        assert(p == paths[d].push(separator));
    } else {
        assert(paths[c].len() > paths[0].len());
        if c < d {
            assert(paths[c] != paths[d]);
        } else {
            assert(paths[d] != paths[c]);
        }
        let (j, k) = choose|j: int, k: int| is_named(parents, paths, readings, separator, c, j, k);
        let h = readings[j].dir;
        let name = readings[j].entries[k].name@;
        assert(is_tidy(readings[j].entries, separator));
        assert(has_name(readings[j].entries[k]));
        let x = with_separator(paths[h], separator);
        assert(paths[c] =~= x + name);
        lemma_prefix_before_name(p, x, name, separator);
        assert(belongs_to(paths[c], paths[d], separator) == p.is_prefix_of(x));
        lemma_belongs(parents, paths, readings, separator, h, d);
        assert(is_within(parents, c, d) == is_within(parents, h, d));
        assert(p.is_prefix_of(x) == belongs_to(paths[h], paths[d], separator)) by {
            if h == d {
                assert(p.is_prefix_of(x));
            } else {
                assert(paths[h] != paths[d]) by {
                    if h < d {
                        assert(paths[h] != paths[d]);
                    } else {
                        assert(paths[d] != paths[h]);
                    }
                }
                if p.is_prefix_of(paths[h]) {
                    assert(paths[h] =~= x.subrange(0, paths[h].len() as int));
                    lemma_prefix_of_longer(p, paths[h], x);
                }
                if p.is_prefix_of(x) && x != paths[h] {
                    assert(x == paths[h].push(separator));
                    assert forall|i: int| 0 <= i < p.len() implies p[i] == x[i] by {
                        assert(p[i] == x.subrange(0, p.len() as int)[i]);
                    }
                    if p.len() == x.len() {
                        assert(p =~= x);
                        assert(paths[h] =~= x.drop_last());
                        assert(without_end(paths[d], separator) =~= p.drop_last());
                        if d == 0 {
                            lemma_root_is_shortest(paths[0], paths[h], separator);
                        }
                    } else {
                        assert(p =~= paths[h].subrange(0, p.len() as int));
                    }
                }
            }
        }
    }
}

proof fn lemma_root_is_shortest(root: Seq<char>, other: Seq<char>, separator: char)
    requires
        without_end(root, separator) == other,
    ensures
        other.len() <= root.len(),
    decreases root.len(),
{
    if root.len() > 0 && root.last() == separator {
        lemma_root_is_shortest(root.drop_last(), other, separator);
    }
}

/// A directory belongs to another, by the way their paths are written, just where the other
/// holds it at any depth.
pub proof fn law_belonging_at_any_depth(run: Scan, readings: Seq<Reading>, c: int, d: int)
    requires
        are_known(run.dirs.parents(), run.dirs.paths(), readings, run.separator),
        run.dirs.nodes@[0].path@.len() > 0,
        0 <= c < run.dirs.nodes@.len(),
        0 <= d < run.dirs.nodes@.len(),
    ensures
        belongs_to(run.dirs.nodes@[c].path@, run.dirs.nodes@[d].path@, run.separator) == is_within(
            run.dirs.parents(),
            c,
            d,
        ),
{
    let paths = run.dirs.paths();
    assert(paths[0] == run.dirs.nodes@[0].path@);
    assert(paths[c] == run.dirs.nodes@[c].path@);
    assert(paths[d] == run.dirs.nodes@[d].path@);
    lemma_belongs(run.dirs.parents(), paths, readings, run.separator, c, d);
}

/// The files found below a directory are those found in every directory that it holds at any
/// depth, and in itself.
pub proof fn law_files_below_at_any_depth(run: Scan, readings: Seq<Reading>, d: int)
    requires
        run.wf(),
        are_known(run.dirs.parents(), run.dirs.paths(), readings, run.separator),
        run.dirs.nodes@[0].path@.len() > 0,
        0 <= d < run.dirs.nodes@.len(),
    ensures
        run.dirs.found_below(run.dirs.nodes@[d].path@) == found_where(
            run.dirs.found@,
            |c: int| is_within(run.dirs.parents(), c, d),
        ),
{
    reveal(DirTree::wf);
    let found = run.dirs.found@;
    let paths = run.dirs.paths();
    let dir = run.dirs.nodes@[d].path@;
    let a = belonging(paths, dir, run.dirs.separator);
    let b = |c: int| is_within(run.dirs.parents(), c, d);
    assert forall|j: int| 0 <= j < found.len() implies a((#[trigger] found[j]).dir) == b(
        found[j].dir,
    ) by {
        law_belonging_at_any_depth(run, readings, found[j].dir, d);
    }
    lemma_found_same(found, a, b);
}

/// The entry `k` of the reading `r` is a file that no pattern excludes, with this path and size,
/// in the directory `d` or in one that `d` holds at any depth.
pub open spec fn is_file_within(
    run: Scan,
    readings: Seq<Reading>,
    d: int,
    r: int,
    k: int,
    file: (Seq<char>, u64),
) -> bool {
    &&& 0 <= r < readings.len()
    &&& is_within(run.dirs.parents(), readings[r].dir, d)
    &&& 0 <= k < readings[r].entries.len()
    &&& readings[r].entries[k].kind == EntryKind::File
    &&& !excluded(run.options.exclude@, readings[r].entries[k].name@)
    &&& file.0 == joined(
        run.dirs.nodes@[readings[r].dir].path@,
        readings[r].entries[k].name@,
        run.separator,
    )
    &&& file.1 == readings[r].entries[k].size
}

/// A file of one of the readings.
spec fn is_read_file(
    paths: Seq<Seq<char>>,
    readings: Seq<Reading>,
    options: ScanOptions,
    separator: char,
    r: int,
    k: int,
    f: (int, (Seq<char>, u64)),
) -> bool {
    &&& 0 <= r < readings.len()
    &&& 0 <= k < readings[r].entries.len()
    &&& is_counted_file(readings[r].entries[k], options)
    &&& f.0 == readings[r].dir
    &&& f.1 == (joined(paths[f.0], readings[r].entries[k].name@, separator), readings[r].entries[k].size)
}

/// A file of some reading.
spec fn is_read(
    paths: Seq<Seq<char>>,
    readings: Seq<Reading>,
    options: ScanOptions,
    separator: char,
    f: (int, (Seq<char>, u64)),
) -> bool {
    exists|r: int, k: int| #[trigger]
        is_read_file(paths, readings, options, separator, r, k, f)
}

proof fn lemma_read_exactly(
    paths: Seq<Seq<char>>,
    readings: Seq<Reading>,
    options: ScanOptions,
    separator: char,
)
    ensures
        forall|r: int, k: int, f: (int, (Seq<char>, u64))| #[trigger]
            is_read_file(paths, readings, options, separator, r, k, f) ==> files_read(
                paths,
                readings,
                options,
                separator,
            ).contains(f),
        forall|i: int|
            0 <= i < files_read(paths, readings, options, separator).len() ==> is_read(
                paths,
                readings,
                options,
                separator,
                #[trigger] files_read(paths, readings, options, separator)[i],
            ),
    decreases readings.len(),
{
    if readings.len() > 0 {
        let rest = readings.drop_last();
        let last = readings.last();
        lemma_read_exactly(paths, rest, options, separator);
        let before = files_read(paths, rest, options, separator);
        let files = listed_files(paths[last.dir], last.entries, options, separator);
        let here = files.map_values(|f: (Seq<char>, u64)| (last.dir, f));
        let all = files_read(paths, readings, options, separator);
        law_every_file_counts(paths[last.dir], last.entries, options, separator);
        assert forall|r: int, k: int, f: (int, (Seq<char>, u64))| #[trigger]
            is_read_file(paths, readings, options, separator, r, k, f) implies all.contains(f) by {
            if r < rest.len() {
                assert(rest[r] == readings[r]);
                assert(is_read_file(paths, rest, options, separator, r, k, f));
                let i = choose|i: int| 0 <= i < before.len() && before[i] == f;
                assert(all[i] == f);
            } else {
                assert(files.contains(f.1));
                let i = choose|i: int| 0 <= i < files.len() && files[i] == f.1;
                assert(here[i] == f);
                assert(all[before.len() + i] == f);
            }
        }
        assert forall|i: int| 0 <= i < all.len() implies is_read(
            paths,
            readings,
            options,
            separator,
            #[trigger] all[i],
        ) by {
            if i < before.len() {
                assert(all[i] == before[i]);
                let (r, k) = choose|r: int, k: int|
                    is_read_file(paths, rest, options, separator, r, k, before[i]);
                assert(rest[r] == readings[r]);
                assert(is_read_file(paths, readings, options, separator, r, k, all[i]));
            } else {
                let m = i - before.len();
                assert(all[i] == here[m]);
                law_only_counted_files(paths[last.dir], last.entries, options, separator, m);
                let k = choose|k: int|
                    0 <= k < last.entries.len() && is_counted_file(#[trigger] last.entries[k], options)
                        && files[m] == (
                        joined(paths[last.dir], last.entries[k].name@, separator),
                        last.entries[k].size,
                    );
                assert(is_read_file(paths, readings, options, separator, readings.len() - 1, k, all[i]));
            }
        }
    }
}

/// Every file that counts in a directory or at any depth below it is listed for it, where the
/// directory itself is listed: or the list is full, and no file in it is smaller.
pub proof fn law_every_file_below_is_shown(
    run: Scan,
    readings: Seq<Reading>,
    d: int,
    r: int,
    k: int,
    file: (Seq<char>, u64),
)
    requires
        run.wf(),
        !run.files_only,
        accounts_for(run, readings),
        are_known(run.dirs.parents(), run.dirs.paths(), readings, run.separator),
        run.dirs.nodes@[0].path@.len() > 0,
        shows_dirs(run.state.lists, run.dirs),
        0 <= d < run.dirs.nodes@.len(),
        is_file_within(run, readings, d, r, k, file),
    ensures
        ({
            let dir = run.dirs.nodes@[d].path@;
            let lists = run.state.lists;
            &&& lists.dir_files@.contains_key(dir) == exists|i: int|
                0 <= i < lists.top_dirs@.len() && (#[trigger] lists.top_dirs@[i]).path@ == dir
            &&& lists.dir_files@.contains_key(dir) ==> views(lists.dir_files@[dir]).contains(file)
                || (lists.dir_files@[dir].len() == run.top_n && forall|i: int|
                0 <= i < lists.dir_files@[dir].len() ==> (#[trigger] lists.dir_files@[dir][i]).size
                    >= file.1)
        }),
{
    broadcast use vstd::seq_lib::group_to_multiset_ensures;
    broadcast use vstd::multiset::group_multiset_axioms;

    let paths = run.dirs.paths();
    let dir = run.dirs.nodes@[d].path@;
    let lists = run.state.lists;
    let found = run.dirs.found@;
    let which = |c: int| is_within(run.dirs.parents(), c, d);
    let read = files_read(paths, readings, run.options, run.separator);
    let f = (readings[r].dir, file);
    law_files_below_at_any_depth(run, readings, d);
    lemma_found_exactly(found, which);
    lemma_read_exactly(paths, readings, run.options, run.separator);
    assert(paths[f.0] == run.dirs.nodes@[readings[r].dir].path@);
    assert(is_read_file(paths, readings, run.options, run.separator, r, k, f));
    let j = choose|j: int| 0 <= j < read.len() && read[j] == f;
    assert(found_views(found).len() == found.len());
    assert(found_views(found)[j] == (found[j].dir, (found[j].entry.path@, found[j].entry.size)));
    let e = found[j].entry;
    assert(which(found[j].dir));
    let below = run.dirs.found_below(dir);
    assert(below.count(e) > 0);
    assert(below.len() > 0);
    if lists.dir_files@.contains_key(dir) {
        let list = lists.dir_files@[dir];
        assert(is_top(list, below, run.top_n as nat));
        if !views(list).contains(file) {
            assert(!list.contains(e)) by {
                if list.contains(e) {
                    let i = choose|i: int| 0 <= i < list.len() && list[i] == e;
                    assert(views(list)[i] == file);
                }
            }
            assert(list.to_multiset().count(e) < below.count(e));
            if below.len() <= run.top_n {
                lemma_all_taken(list, below, e);
            }
        }
    }
}

/// Nothing but files that count in a directory or at any depth below it is listed for it.
pub proof fn law_only_files_below_are_shown(run: Scan, readings: Seq<Reading>, d: int, i: int)
    requires
        run.wf(),
        !run.files_only,
        accounts_for(run, readings),
        are_known(run.dirs.parents(), run.dirs.paths(), readings, run.separator),
        run.dirs.nodes@[0].path@.len() > 0,
        shows_dirs(run.state.lists, run.dirs),
        0 <= d < run.dirs.nodes@.len(),
        run.state.lists.dir_files@.contains_key(run.dirs.nodes@[d].path@),
        0 <= i < run.state.lists.dir_files@[run.dirs.nodes@[d].path@].len(),
    ensures
        exists|r: int, k: int| #[trigger]
            is_file_within(
                run,
                readings,
                d,
                r,
                k,
                views(run.state.lists.dir_files@[run.dirs.nodes@[d].path@])[i],
            ),
        ranked(run.state.lists.dir_files@[run.dirs.nodes@[d].path@]),
        run.state.lists.dir_files@[run.dirs.nodes@[d].path@].len() <= run.top_n,
{
    broadcast use vstd::seq_lib::group_to_multiset_ensures;
    broadcast use vstd::multiset::group_multiset_axioms;

    let paths = run.dirs.paths();
    let dir = run.dirs.nodes@[d].path@;
    let list = run.state.lists.dir_files@[dir];
    let found = run.dirs.found@;
    let which = |c: int| is_within(run.dirs.parents(), c, d);
    let read = files_read(paths, readings, run.options, run.separator);
    law_files_below_at_any_depth(run, readings, d);
    lemma_found_exactly(found, which);
    lemma_read_exactly(paths, readings, run.options, run.separator);
    let below = run.dirs.found_below(dir);
    assert(is_top(list, below, run.top_n as nat));
    let e = list[i];
    assert(list.contains(e));
    assert(list.to_multiset().count(e) <= below.count(e));
    let j = choose|j: int|
        0 <= j < found.len() && which((#[trigger] found[j]).dir) && found[j].entry == e;
    assert(found_views(found).len() == found.len());
    assert(found_views(found)[j] == (found[j].dir, (e.path@, e.size)));
    assert(read[j] == found_views(found)[j]);
    let (r, k) = choose|r: int, k: int|
        is_read_file(paths, readings, run.options, run.separator, r, k, read[j]);
    assert(paths[readings[r].dir] == run.dirs.nodes@[readings[r].dir].path@);
    assert(views(list)[i] == (e.path@, e.size));
    assert(is_file_within(run, readings, d, r, k, views(list)[i]));
}

/// Every file that counts in a directory that was read is listed, or the list is full and no
/// file in it is smaller.
pub proof fn law_every_file_read_is_ranked(run: Scan, readings: Seq<Reading>, r: int, k: int)
    requires
        accounts_for(run, readings),
        0 <= r < readings.len(),
        0 <= k < readings[r].entries.len(),
        readings[r].entries[k].kind == EntryKind::File,
        !excluded(run.options.exclude@, readings[r].entries[k].name@),
    ensures
        ({
            let list = run.state.lists.top_files@;
            let e = readings[r].entries[k];
            let path = joined(run.dirs.nodes@[readings[r].dir].path@, e.name@, run.separator);
            views(list).contains((path, e.size)) || (list.len() == run.top_n && forall|i: int|
                0 <= i < list.len() ==> (#[trigger] list[i]).size >= e.size)
        }),
{
    let paths = run.dirs.paths();
    let e = readings[r].entries[k];
    assert(paths[readings[r].dir] == run.dirs.nodes@[readings[r].dir].path@);
    let f = (joined(paths[readings[r].dir], e.name@, run.separator), e.size);
    lemma_counted_has(paths, readings, run.options, run.separator, r, k);
    let all = counted_in(paths, readings, run.options, run.separator);
    let at = choose|at: int| 0 <= at < all.len() && all[at] == f;
    law_largest_files_are_listed(run, readings);
    assert(!views(run.state.lists.top_files@).contains(all[at]) ==> run.state.lists.top_files@.len()
        == run.top_n);
}

proof fn lemma_counted_has(
    paths: Seq<Seq<char>>,
    readings: Seq<Reading>,
    options: ScanOptions,
    separator: char,
    r: int,
    k: int,
)
    requires
        0 <= r < readings.len(),
        0 <= k < readings[r].entries.len(),
        is_counted_file(readings[r].entries[k], options),
    ensures
        counted_in(paths, readings, options, separator).contains(
            (
                joined(paths[readings[r].dir], readings[r].entries[k].name@, separator),
                readings[r].entries[k].size,
            ),
        ),
    decreases readings.len(),
{
    let rest = readings.drop_last();
    let last = readings.last();
    let before = counted_in(paths, rest, options, separator);
    let files = listed_files(paths[last.dir], last.entries, options, separator);
    let all = counted_in(paths, readings, options, separator);
    let f = (
        joined(paths[readings[r].dir], readings[r].entries[k].name@, separator),
        readings[r].entries[k].size,
    );
    if r < rest.len() {
        lemma_counted_has(paths, rest, options, separator, r, k);
        let i = choose|i: int| 0 <= i < before.len() && before[i] == f;
        assert(all[i] == f);
    } else {
        law_every_file_counts(paths[last.dir], last.entries, options, separator);
        let i = choose|i: int| 0 <= i < files.len() && files[i] == f;
        assert(all[before.len() + i] == f);
    }
}

/// One more reading adds its files, and to every directory that holds it, at any depth, their
/// bytes.
pub proof fn law_readings_add_up(
    parents: Seq<Option<usize>>,
    paths: Seq<Seq<char>>,
    readings: Seq<Reading>,
    reading: Reading,
    options: ScanOptions,
    separator: char,
    above: int,
)
    ensures
        ({
            let files = listed_files(paths[reading.dir], reading.entries, options, separator);
            &&& counted_in(paths, readings.push(reading), options, separator) == counted_in(
                paths,
                readings,
                options,
                separator,
            ) + files
            &&& bytes_read_within(parents, paths, readings.push(reading), options, separator, above)
                == bytes_read_within(parents, paths, readings, options, separator, above) + (
            if is_within(parents, reading.dir, above) {
                sum_sizes(files)
            } else {
                0
            })
        }),
        counted_in(paths, Seq::empty(), options, separator).len() == 0,
        bytes_read_within(parents, paths, Seq::empty(), options, separator, above) == 0,
{
    assert(readings.push(reading).drop_last() =~= readings);
}

/// Every directory with bytes in it or below it is listed with all of them, or the list is full
/// and no directory in it is smaller; and only such directories are listed.
pub proof fn law_every_dir_read_is_ranked(run: Scan, readings: Seq<Reading>, d: int)
    requires
        run.wf(),
        !run.files_only,
        accounts_for(run, readings),
        shows_dirs(run.state.lists, run.dirs),
        0 <= d < run.dirs.nodes@.len(),
    ensures
        ({
            let list = run.state.lists.top_dirs@;
            let size = |c: int|
                bytes_read_within(
                    run.dirs.parents(),
                    run.dirs.paths(),
                    readings,
                    run.options,
                    run.separator,
                    c,
                );
            &&& ranked(list)
            &&& list.len() <= run.top_n
            &&& size(d) > 0 ==> (exists|i: int|
                0 <= i < list.len() && (#[trigger] list[i]).path@ == run.dirs.nodes@[d].path@
                    && list[i].size == size(d)) || (list.len() == run.top_n && forall|i: int|
                0 <= i < list.len() ==> (#[trigger] list[i]).size >= size(d))
            &&& forall|i: int|
                0 <= i < list.len() ==> exists|c: int|
                    0 <= c < run.dirs.nodes@.len() && #[trigger] run.dirs.nodes@[c].path@
                        == #[trigger] list[i].path@ && list[i].size == size(c)
        }),
{
    let nodes = run.dirs.nodes@;
    let list = run.state.lists.top_dirs@;
    let size = |c: int|
        bytes_read_within(
            run.dirs.parents(),
            run.dirs.paths(),
            readings,
            run.options,
            run.separator,
            c,
        );
    law_largest_dirs_are_listed(nodes, list, run.top_n as nat);
    law_directory_sizes(run, readings, d);
    if size(d) > 0 {
        reveal(DirTree::wf);
        lemma_visited(run.dirs.parents(), run.dirs.visits@, d);
        assert(nodes[d].counted);
        let e = SizeEntry { path: nodes[d].path, size: nodes[d].size };
        if list.contains(e) {
            let i = choose|i: int| 0 <= i < list.len() && list[i] == e;
            assert(list[i].path@ == nodes[d].path@);
        }
    }
    assert forall|i: int| 0 <= i < list.len() implies exists|c: int|
        0 <= c < nodes.len() && #[trigger] nodes[c].path@ == #[trigger] list[i].path@
            && list[i].size == size(c) by {
        assert(is_counted_dir(nodes, list[i]));
        let c = choose|c: int|
            0 <= c < nodes.len() && (#[trigger] nodes[c]).counted && nodes[c].path == list[i].path
                && nodes[c].size == list[i].size;
        law_directory_sizes(run, readings, c);
        assert(nodes[c].path@ == list[i].path@);
    }
}

proof fn lemma_visited(parents: Seq<Option<usize>>, visits: Seq<Visit>, above: int)
    requires
        bytes_within(parents, visits, above) > 0,
    ensures
        visited_within(parents, visits, above),
    decreases visits.len(),
{
    let rest = visits.drop_last();
    if is_within(parents, visits.last().dir, above) {
        assert(is_within(parents, visits[visits.len() - 1].dir, above));
    } else {
        lemma_visited(parents, rest, above);
        let j = choose|j: int| 0 <= j < rest.len() && is_within(parents, (#[trigger] rest[j]).dir, above);
        assert(is_within(parents, visits[j].dir, above));
    }
}

} // verus!
