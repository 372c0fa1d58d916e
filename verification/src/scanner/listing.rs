//! The listing of one directory: which entries count, and which directories are walked next.

use vstd::prelude::*;

use crate::glob::{glob_match, glob_matches};
use crate::paths::{join_path, joined};
use crate::ranking::SizeEntry;
use crate::state::ScanOptions;

verus! {

/// What an entry of a directory is.
#[derive(Clone, Copy, PartialEq, Eq, Structural)]
pub enum EntryKind {
    Dir,
    File,
    /// Neither a directory nor a file, such as a link or a device.
    Other,
    /// What it is could not be found out.
    Failed,
}

/// An entry of a directory. `size` is what a file takes, `dev` the file system that a
/// directory is on, where it is known.
pub struct Entry {
    pub name: String,
    pub kind: EntryKind,
    pub size: u64,
    pub dev: Option<u64>,
}

/// One of the patterns to exclude matches `name`.
pub open spec fn excluded(exclude: Seq<String>, name: Seq<char>) -> bool {
    exists|i: int| 0 <= i < exclude.len() && glob_matches((#[trigger] exclude[i])@, name)
}

/// The entry is a file that counts.
pub open spec fn is_counted_file(e: Entry, options: ScanOptions) -> bool {
    e.kind == EntryKind::File && !excluded(options.exclude@, e.name@)
}

/// The entry is a directory to walk: not excluded, and on the file system of the scan where
/// the scan stays on one.
pub open spec fn is_walked_dir(e: Entry, options: ScanOptions) -> bool {
    &&& e.kind == EntryKind::Dir
    &&& !excluded(options.exclude@, e.name@)
    &&& is_on_system(e.dev, options)
}

/// The file system `dev` is that of the scan, where the scan stays on one and `dev` is known.
pub open spec fn is_on_system(dev: Option<u64>, options: ScanOptions) -> bool {
    options.one_file_system && dev is Some ==> dev->0 == options.root_dev
}

/// The paths and sizes of the files that count, in the order of the listing.
pub open spec fn listed_files(
    dir: Seq<char>,
    entries: Seq<Entry>,
    options: ScanOptions,
    separator: char,
) -> Seq<(Seq<char>, u64)>
    decreases entries.len(),
{
    if entries.len() == 0 {
        Seq::empty()
    } else {
        let before = listed_files(dir, entries.drop_last(), options, separator);
        let e = entries.last();
        if is_counted_file(e, options) {
            before.push((joined(dir, e.name@, separator), e.size))
        } else {
            before
        }
    }
}

/// The places of the directories to walk, in the order of the listing.
pub open spec fn listed_dirs(entries: Seq<Entry>, options: ScanOptions) -> Seq<usize>
    decreases entries.len(),
{
    if entries.len() == 0 {
        Seq::empty()
    } else {
        let before = listed_dirs(entries.drop_last(), options);
        if is_walked_dir(entries.last(), options) {
            before.push((entries.len() - 1) as usize)
        } else {
            before
        }
    }
}

/// The number of entries that could not be examined.
pub open spec fn failures(entries: Seq<Entry>) -> nat
    decreases entries.len(),
{
    if entries.len() == 0 {
        0
    } else {
        failures(entries.drop_last()) + (if entries.last().kind == EntryKind::Failed {
            1nat
        } else {
            0
        })
    }
}

/// The bytes of all files together.
pub open spec fn sum_sizes(files: Seq<(Seq<char>, u64)>) -> nat
    decreases files.len(),
{
    if files.len() == 0 {
        0
    } else {
        sum_sizes(files.drop_last()) + files.last().1 as nat
    }
}

/// The paths and sizes of entries.
pub open spec fn views(list: Seq<SizeEntry>) -> Seq<(Seq<char>, u64)> {
    list.map_values(|e: SizeEntry| (e.path@, e.size))
}

/// Whether one of the patterns to exclude matches `name`.
pub fn is_excluded(exclude: &Vec<String>, name: &str) -> (r: bool)
    ensures
        r == excluded(exclude@, name@),
{
    let mut i: usize = 0;
    while i < exclude.len()
        invariant
            i <= exclude@.len(),
            forall|j: int| 0 <= j < i ==> !glob_matches((#[trigger] exclude@[j])@, name@),
        decreases exclude@.len() - i,
    {
        if glob_match(exclude[i].as_str(), name) {
            return true;
        }
        i += 1;
    }
    false
}

/// Whether the scan may enter a directory on the file system `dev`.
pub fn stays_on_system(dev: Option<u64>, options: &ScanOptions) -> (r: bool)
    ensures
        r == is_on_system(dev, *options),
{
    match dev {
        Some(d) => !options.one_file_system || d == options.root_dev,
        None => true,
    }
}

/// A directory at `depth` on the file system `dev` is read: no deeper than allowed, and on the
/// file system of the scan where it stays on one.
pub open spec fn is_entered(depth: int, dev: Option<u64>, options: ScanOptions) -> bool {
    &&& options.max_depth matches Some(max) ==> depth <= max
    &&& is_on_system(dev, options)
}

/// Whether a directory at `depth` on the file system `dev` is read.
pub fn enters_dir(depth: usize, dev: Option<u64>, options: &ScanOptions) -> (r: bool)
    ensures
        r == is_entered(depth as int, dev, *options),
{
    let shallow: bool = match options.max_depth {
        Some(max) => depth <= max,
        None => true,
    };
    shallow && stays_on_system(dev, options)
}

/// What a listing adds up to.
pub struct Listing {
    pub files: Vec<SizeEntry>,
    pub dirs: Vec<usize>,
    pub bytes: u64,
    pub failed: u64,
}

proof fn lemma_sums_grow(dir: Seq<char>, entries: Seq<Entry>, i: int, options: ScanOptions, separator: char)
    requires
        0 <= i <= entries.len(),
    ensures
        sum_sizes(listed_files(dir, entries.take(i), options, separator)) <= sum_sizes(
            listed_files(dir, entries, options, separator),
        ),
        failures(entries) <= entries.len(),
    decreases entries.len(),
{
    if i == entries.len() {
        assert(entries.take(i) =~= entries);
        if entries.len() > 0 {
            lemma_sums_grow(dir, entries.drop_last(), 0, options, separator);
        }
    } else {
        let rest = entries.drop_last();
        lemma_sums_grow(dir, rest, i, options, separator);
        assert(rest.take(i) =~= entries.take(i));
        let before = listed_files(dir, rest, options, separator);
        let all = listed_files(dir, entries, options, separator);
        if is_counted_file(entries.last(), options) {
            assert(all.drop_last() =~= before);
        }
    }
}

/// Adds a listing up.
pub fn read_listing(dir: &String, entries: &Vec<Entry>, options: &ScanOptions, separator: char) -> (r:
    Listing)
    requires
        sum_sizes(listed_files(dir@, entries@, *options, separator)) <= u64::MAX,
    ensures
        views(r.files@) == listed_files(dir@, entries@, *options, separator),
        r.dirs@ == listed_dirs(entries@, *options),
        r.bytes == sum_sizes(listed_files(dir@, entries@, *options, separator)),
        r.failed == failures(entries@),
{
    let mut files: Vec<SizeEntry> = Vec::new();
    let mut dirs: Vec<usize> = Vec::new();
    let mut bytes: u64 = 0;
    let mut failed: u64 = 0;
    let mut i: usize = 0;
    assert(views(files@) =~= Seq::empty());
    while i < entries.len()
        invariant
            i <= entries@.len(),
            sum_sizes(listed_files(dir@, entries@, *options, separator)) <= u64::MAX,
            views(files@) == listed_files(dir@, entries@.take(i as int), *options, separator),
            dirs@ == listed_dirs(entries@.take(i as int), *options),
            bytes == sum_sizes(listed_files(dir@, entries@.take(i as int), *options, separator)),
            failed == failures(entries@.take(i as int)),
        decreases entries@.len() - i,
    {
        let ghost seen = entries@.take(i as int);
        let ghost next = entries@.take(i + 1);
        let ghost was = files@;
        proof {
            assert(next.drop_last() =~= seen);
            assert(next.last() == entries@[i as int]);
            lemma_sums_grow(dir@, entries@, i + 1, *options, separator);
            lemma_sums_grow(dir@, seen, 0, *options, separator);
        }
        let e: &Entry = &entries[i];
        match e.kind {
            EntryKind::Failed => {
                failed += 1;
            },
            EntryKind::Other => {},
            EntryKind::Dir => {
                if !is_excluded(&options.exclude, e.name.as_str()) && stays_on_system(
                    e.dev,
                    options,
                ) {
                    dirs.push(i);
                }
            },
            EntryKind::File => {
                if !is_excluded(&options.exclude, e.name.as_str()) {
                    let path: String = join_path(dir.as_str(), e.name.as_str(), separator);
                    proof {
                        let all = listed_files(dir@, next, *options, separator);
                        assert(all.drop_last() =~= listed_files(dir@, seen, *options, separator));
                    }
                    bytes = bytes + e.size;
                    files.push(SizeEntry { path, size: e.size });
                    assert(views(files@) =~= views(was).push(
                        (joined(dir@, e.name@, separator), e.size),
                    ));
                }
            },
        }
        i += 1;
    }
    assert(entries@.take(entries@.len() as int) =~= entries@);
    Listing { files, dirs, bytes, failed }
}

/// The bytes and the number of the files of a listing that count; `None` where the bytes are
/// too many for a counter.
pub fn measure(dir: &String, entries: &Vec<Entry>, options: &ScanOptions, separator: char) -> (r:
    Option<(u64, u64)>)
    ensures
        ({
            let files = listed_files(dir@, entries@, *options, separator);
            match r {
                Some((bytes, count)) => bytes == sum_sizes(files) && count == files.len(),
                None => sum_sizes(files) > u64::MAX,
            }
        }),
{
    let mut bytes: u64 = 0;
    let mut count: u64 = 0;
    let mut i: usize = 0;
    while i < entries.len()
        invariant
            i <= entries@.len(),
            bytes == sum_sizes(listed_files(dir@, entries@.take(i as int), *options, separator)),
            count == listed_files(dir@, entries@.take(i as int), *options, separator).len(),
            count <= i,
        decreases entries@.len() - i,
    {
        let ghost seen = entries@.take(i as int);
        let ghost next = entries@.take(i + 1);
        proof {
            assert(next.drop_last() =~= seen);
            assert(next.last() == entries@[i as int]);
            lemma_sums_grow(dir@, entries@, i + 1, *options, separator);
        }
        let e: &Entry = &entries[i];
        if e.kind == EntryKind::File && !is_excluded(&options.exclude, e.name.as_str()) {
            proof {
                let all = listed_files(dir@, next, *options, separator);
                assert(all.drop_last() =~= listed_files(dir@, seen, *options, separator));
            }
            bytes = match bytes.checked_add(e.size) {
                Some(sum) => sum,
                None => {
                    return None;
                },
            };
            count += 1;
        }
        i += 1;
    }
    assert(entries@.take(entries@.len() as int) =~= entries@);
    Some((bytes, count))
}

/// Nothing but files that are not excluded counts: every file that a listing counts is one of
/// its entries.
pub proof fn law_only_counted_files(
    dir: Seq<char>,
    entries: Seq<Entry>,
    options: ScanOptions,
    separator: char,
    i: int,
)
    requires
        0 <= i < listed_files(dir, entries, options, separator).len(),
    ensures
        exists|j: int|
            0 <= j < entries.len() && is_counted_file(#[trigger] entries[j], options)
                && listed_files(dir, entries, options, separator)[i] == (
                joined(dir, entries[j].name@, separator),
                entries[j].size,
            ),
    decreases entries.len(),
{
    let rest = entries.drop_last();
    if i < listed_files(dir, rest, options, separator).len() {
        law_only_counted_files(dir, rest, options, separator, i);
        let j = choose|j: int|
            0 <= j < rest.len() && is_counted_file(#[trigger] rest[j], options) && listed_files(
                dir,
                rest,
                options,
                separator,
            )[i] == (joined(dir, rest[j].name@, separator), rest[j].size);
        assert(entries[j] == rest[j]);
    } else {
        assert(is_counted_file(entries[entries.len() - 1], options));
    }
}

/// Nothing but directories that are not excluded, on the file system of the scan where it stays
/// on one, is walked.
pub proof fn law_only_walked_dirs(entries: Seq<Entry>, options: ScanOptions, i: int)
    requires
        entries.len() <= usize::MAX,
        0 <= i < listed_dirs(entries, options).len(),
    ensures
        listed_dirs(entries, options)[i] < entries.len(),
        is_walked_dir(entries[listed_dirs(entries, options)[i] as int], options),
    decreases entries.len(),
{
    let rest = entries.drop_last();
    if i < listed_dirs(rest, options).len() {
        law_only_walked_dirs(rest, options, i);
        assert(entries[listed_dirs(rest, options)[i] as int] == rest[listed_dirs(rest, options)[i] as int]);
    }
}

/// A pattern more excludes the names that it matches, and no other; without patterns nothing is
/// excluded.
pub proof fn law_patterns_add_up(exclude: Seq<String>, pattern: String, name: Seq<char>)
    ensures
        excluded(exclude.push(pattern), name) == (excluded(exclude, name) || glob_matches(
            pattern@,
            name,
        )),
        !excluded(Seq::empty(), name),
{
    let more = exclude.push(pattern);
    if excluded(exclude, name) {
        let i = choose|i: int| 0 <= i < exclude.len() && glob_matches((#[trigger] exclude[i])@, name);
        assert(more[i] == exclude[i]);
    }
    if glob_matches(pattern@, name) {
        assert(more[exclude.len() as int] == pattern);
    }
    if excluded(more, name) {
        let i = choose|i: int| 0 <= i < more.len() && glob_matches((#[trigger] more[i])@, name);
        if i < exclude.len() {
            assert(exclude[i] == more[i]);
        }
    }
}

/// Every file counts, whatever its name, unless a pattern excludes it: with its path and its
/// size, in the order of the listing, and nothing else does.
pub proof fn law_every_file_counts(
    dir: Seq<char>,
    entries: Seq<Entry>,
    options: ScanOptions,
    separator: char,
)
    ensures
        ({
            let counted = entries.filter(
                |e: Entry| e.kind == EntryKind::File && !excluded(options.exclude@, e.name@),
            );
            let files = listed_files(dir, entries, options, separator);
            &&& files.len() == counted.len()
            &&& forall|i: int|
                0 <= i < files.len() ==> #[trigger] files[i] == (
                    joined(dir, counted[i].name@, separator),
                    counted[i].size,
                )
        }),
        forall|j: int|
            #![trigger entries[j]]
            0 <= j < entries.len() && entries[j].kind == EntryKind::File && !excluded(
                options.exclude@,
                entries[j].name@,
            ) ==> listed_files(dir, entries, options, separator).contains(
                (joined(dir, entries[j].name@, separator), entries[j].size),
            ),
    decreases entries.len(),
{
    reveal(Seq::filter);
    let keep = |e: Entry| e.kind == EntryKind::File && !excluded(options.exclude@, e.name@);
    let counted = entries.filter(keep);
    let files = listed_files(dir, entries, options, separator);
    if entries.len() > 0 {
        let rest = entries.drop_last();
        law_every_file_counts(dir, rest, options, separator);
        let before = rest.filter(keep);
        let listed = listed_files(dir, rest, options, separator);
        assert forall|i: int| 0 <= i < files.len() implies #[trigger] files[i] == (
            joined(dir, counted[i].name@, separator),
            counted[i].size,
        ) by {
            if i < listed.len() {
                assert(files[i] == listed[i]);
                assert(counted[i] == before[i]);
            }
        }
        assert forall|j: int|
            #![trigger entries[j]]
            0 <= j < entries.len() && keep(entries[j]) implies files.contains(
            (joined(dir, entries[j].name@, separator), entries[j].size),
        ) by {
            let one = (joined(dir, entries[j].name@, separator), entries[j].size);
            if j < rest.len() {
                assert(rest[j] == entries[j]);
                assert(listed.contains(one));
                let i = choose|i: int| 0 <= i < listed.len() && listed[i] == one;
                assert(files[i] == one);
            } else {
                assert(files[files.len() - 1] == one);
            }
        }
    }
}

/// Every directory of a listing is walked, whatever its name, unless a pattern excludes it or it
/// is known to be on another file system than the one that the scan stays on; nothing else is,
/// and none twice.
pub proof fn law_every_dir_is_walked(entries: Seq<Entry>, options: ScanOptions)
    requires
        entries.len() <= usize::MAX,
    ensures
        forall|j: int|
            #![trigger entries[j]]
            0 <= j < entries.len() ==> (listed_dirs(entries, options).contains(j as usize) <==> {
                &&& entries[j].kind == EntryKind::Dir
                &&& !excluded(options.exclude@, entries[j].name@)
                &&& !(options.one_file_system && entries[j].dev is Some && entries[j].dev->0
                    != options.root_dev)
            }),
        forall|i: int, j: int|
            0 <= i < j < listed_dirs(entries, options).len() ==> (#[trigger] listed_dirs(
                entries,
                options,
            )[i]) < (#[trigger] listed_dirs(entries, options)[j]),
    decreases entries.len(),
{
    if entries.len() > 0 {
        let rest = entries.drop_last();
        law_every_dir_is_walked(rest, options);
        let before = listed_dirs(rest, options);
        let all = listed_dirs(entries, options);
        let last = (entries.len() - 1) as usize;
        assert forall|i: int, j: int| 0 <= i < j < all.len() implies (#[trigger] all[i]) < (
        #[trigger] all[j]) by {
            if j < before.len() {
                assert(before[i] < before[j]);
            } else {
                law_only_walked_dirs(rest, options, i);
            }
        }
        assert forall|j: int|
            #![trigger entries[j]]
            0 <= j < entries.len() implies (all.contains(j as usize) <==> {
            &&& entries[j].kind == EntryKind::Dir
            &&& !excluded(options.exclude@, entries[j].name@)
            &&& !(options.one_file_system && entries[j].dev is Some && entries[j].dev->0
                != options.root_dev)
        }) by {
            if j < rest.len() {
                assert(rest[j] == entries[j]);
                if before.contains(j as usize) {
                    let i = choose|i: int| 0 <= i < before.len() && before[i] == j as usize;
                    assert(all[i] == j as usize);
                }
                if all.contains(j as usize) {
                    let i = choose|i: int| 0 <= i < all.len() && all[i] == j as usize;
                    assert(i < before.len());
                    assert(before[i] == j as usize);
                }
            } else {
                if all.len() > before.len() {
                    assert(all[all.len() - 1] == last);
                } else if all.contains(last) {
                    let i = choose|i: int| 0 <= i < all.len() && all[i] == last;
                    law_only_walked_dirs(rest, options, i);
                }
            }
        }
    }
}

/// Every entry that could not be examined is one failure, and no other is.
pub proof fn law_failures_are_counted(entries: Seq<Entry>)
    ensures
        failures(entries) == entries.filter(|e: Entry| e.kind == EntryKind::Failed).len(),
    decreases entries.len(),
{
    reveal(Seq::filter);
    if entries.len() > 0 {
        law_failures_are_counted(entries.drop_last());
    }
}

/// The bytes of files are added up, one file after the other and group by group.
pub proof fn law_sizes_add_up(
    a: Seq<(Seq<char>, u64)>,
    b: Seq<(Seq<char>, u64)>,
    path: Seq<char>,
    size: u64,
)
    ensures
        sum_sizes(a + b) == sum_sizes(a) + sum_sizes(b),
        sum_sizes(seq![(path, size)]) == size,
        sum_sizes(Seq::empty()) == 0,
    decreases b.len(),
{
    let one = seq![(path, size)];
    assert(one.drop_last() =~= Seq::empty());
    assert(sum_sizes(one.drop_last()) == 0);
    assert(one.last().1 == size);
    if b.len() == 0 {
        assert(a + b =~= a);
    } else {
        assert((a + b).drop_last() =~= a + b.drop_last());
        law_sizes_add_up(a, b.drop_last(), path, size);
    }
}

/// A directory is read unless it is deeper than allowed or known to be on another file system
/// than the one that the scan stays on.
pub proof fn law_what_is_entered(depth: int, dev: Option<u64>, options: ScanOptions)
    ensures
        options.max_depth is None && !options.one_file_system ==> is_entered(depth, dev, options),
        is_entered(depth, dev, options) <==> !(options.max_depth is Some && depth
            > options.max_depth->0) && !(options.one_file_system && dev is Some && dev->0
            != options.root_dev),
{
}

} // verus!
