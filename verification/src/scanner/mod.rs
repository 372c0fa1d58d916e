//! The bookkeeping of a scan: each directory that was read goes in, and the directories to
//! read next come out.

use vstd::multiset::Multiset;
use vstd::prelude::*;

use crate::dirs::{bytes_within, counted_dirs, is_within, total_bytes, DirTree, Found, Visit};
use crate::paths::{join_path, joined, shorten_path, shortened};
use crate::ranking::{insert_all, is_top, law_top_of_tops, lemma_all_taken, ranked, SizeEntry};
use crate::state::{cut_list, forgets, Cut, DirFiles, ScanLists, ScanOptions, ScanState};
use crate::text::text_of;

use crate::scanner::history::{accounts_for, are_known, counted_in, found_views};
use crate::scanner::listing::{
    excluded, failures, law_every_dir_is_walked, law_every_file_counts, law_failures_are_counted,
    law_only_walked_dirs, listed_dirs, listed_files, measure, read_listing, sum_sizes, views, Entry,
    EntryKind, Listing,
};

pub mod bulk;
pub mod fallback;
pub mod history;
pub mod linux;
pub mod listing;
pub mod windows;

verus! {

/// How many directories with files are read between two updates of the lists of directories.
pub const FLUSH_EVERY: u64 = 500;

/// A scan in progress.
pub struct Scan {
    pub state: ScanState,
    pub dirs: DirTree,
    /// The size of the smallest file listed when a file was last listed.
    pub min_top_size: u64,
    pub dirs_processed: u64,
    pub top_n: usize,
    pub files_only: bool,
    pub options: ScanOptions,
    pub separator: char,
    pub home: Option<String>,
}

/// A directory to read: its place in the listing that named it, its number and its depth.
pub struct SubDir {
    pub entry: usize,
    pub dir: usize,
    pub depth: usize,
}

/// `n` as a counter of 64 bits shows it.
pub open spec fn wrapped(n: int) -> u64 {
    (n % 0x1_0000_0000_0000_0000) as u64
}

/// Those of `files` that are offered to the list of the largest: all of them as long as the
/// list is not full, then the first `free` and the ones above `min`.
pub open spec fn candidates(files: Seq<SizeEntry>, free: nat, full: bool, min: u64) -> Seq<SizeEntry>
    decreases files.len(),
{
    if files.len() == 0 {
        Seq::empty()
    } else {
        let before = candidates(files.drop_last(), free, full, min);
        if files.len() <= free || !full || files.last().size > min {
            before.push(files.last())
        } else {
            before
        }
    }
}

/// `min` is the size of the smallest entry of `list` where the list holds the `n` entries that
/// it may.
pub open spec fn knows_smallest(list: Seq<SizeEntry>, n: nat, min: u64) -> bool {
    list.len() == n && n > 0 ==> min == list.last().size
}

/// The lists of directories show `dirs`: the largest directories, and for each of them that
/// has files in it or below it the largest of these.
pub open spec fn shows_dirs(lists: ScanLists, dirs: DirTree) -> bool {
    &&& is_top(lists.top_dirs@, counted_dirs(dirs.nodes@).to_multiset(), dirs.top_n as nat)
    &&& forall|dir: Seq<char>| #[trigger]
        lists.dir_files@.contains_key(dir) == (dirs.found_below(dir).len() > 0 && exists|i: int|
            0 <= i < lists.top_dirs@.len() && (#[trigger] lists.top_dirs@[i]).path@ == dir)
    &&& forall|dir: Seq<char>| #[trigger]
        lists.dir_files@.contains_key(dir) ==> is_top(
            lists.dir_files@[dir],
            dirs.found_below(dir),
            dirs.top_n as nat,
        )
}

/// Brings the lists of directories up to date.
pub fn flush_top_dirs(lists: &mut ScanLists, dirs: &DirTree)
    requires
        old(lists).wf(),
        dirs.wf(),
    ensures
        final(lists).wf(),
        shows_dirs(*final(lists), *dirs),
        final(lists).top_files == old(lists).top_files,
        final(lists).current_path == old(lists).current_path,
{
    let top: Vec<SizeEntry> = dirs.top_dirs();
    let mut dir_files: DirFiles = DirFiles::new();
    let mut i: usize = 0;
    while i < top.len()
        invariant
            i <= top@.len(),
            top@.len() <= dirs.top_n,
            dirs.wf(),
            dir_files.wf(),
            forall|dir: Seq<char>| #[trigger]
                dir_files@.contains_key(dir) == (dirs.found_below(dir).len() > 0 && exists|j: int|
                    0 <= j < i && (#[trigger] top@[j]).path@ == dir),
            forall|dir: Seq<char>| #[trigger]
                dir_files@.contains_key(dir) ==> is_top(
                    dir_files@[dir],
                    dirs.found_below(dir),
                    dirs.top_n as nat,
                ),
        decreases top@.len() - i,
    {
        let ghost before = dir_files@;
        let ghost here = top@[i as int].path@;
        let merged: Vec<SizeEntry> = dirs.files_below(&top[i].path);
        let ghost files = merged@;
        if merged.len() > 0 {
            dir_files.insert(top[i].path.clone(), merged);
        }
        assert forall|dir: Seq<char>| #[trigger]
            dir_files@.contains_key(dir) == (dirs.found_below(dir).len() > 0 && exists|j: int|
                0 <= j < i + 1 && (#[trigger] top@[j]).path@ == dir) by {
            assert(before.contains_key(dir) == (dirs.found_below(dir).len() > 0 && exists|j: int|
                0 <= j < i && (#[trigger] top@[j]).path@ == dir));
            if dir == here {
                assert(top@[i as int].path@ == dir);
            } else if exists|j: int| 0 <= j < i + 1 && (#[trigger] top@[j]).path@ == dir {
                let j = choose|j: int| 0 <= j < i + 1 && (#[trigger] top@[j]).path@ == dir;
                assert(j < i);
            }
        }
        assert forall|dir: Seq<char>| #[trigger] dir_files@.contains_key(dir) implies is_top(
            dir_files@[dir],
            dirs.found_below(dir),
            dirs.top_n as nat,
        ) by {
            assert(dir == here || before.contains_key(dir));
        }
        i += 1;
    }
    lists.top_dirs = top;
    lists.dir_files = dir_files;
}

/// Only the first directory is held by none.
pub open spec fn is_rooted(parents: Seq<Option<usize>>) -> bool {
    &&& parents.len() > 0
    &&& parents[0] is None
    &&& forall|i: int| 0 < i < parents.len() ==> (#[trigger] parents[i]) is Some
}

impl Scan {
    /// The lists are in order and no longer than allowed, of a full list of files the smallest
    /// size is known, every directory but the root is held by another, and unless the scan
    /// leaves the directories out, all bytes found are in them.
    pub open spec fn wf(&self) -> bool {
        &&& self.state.lists.wf()
        &&& self.state.lists.top_files@.len() <= self.top_n
        &&& knows_smallest(
            self.state.lists.top_files@,
            self.top_n as nat,
            self.min_top_size,
        )
        &&& self.dirs.wf()
        &&& self.dirs.top_n == self.top_n
        &&& self.dirs.separator == self.separator
        &&& is_rooted(self.dirs.parents())
        &&& if self.files_only {
            self.dirs.visits@.len() == 0 && self.dirs.found@.len() == 0
        } else {
            total_bytes(self.dirs.visits@) == self.state.total_bytes
        }
    }

    /// The list of files holds as many as it may.
    pub open spec fn is_full(&self) -> bool {
        self.state.lists.top_files@.len() >= self.top_n
    }

    /// What stays as it was chosen for the scan.
    pub open spec fn set_up_like(&self, other: Scan) -> bool {
        &&& self.top_n == other.top_n
        &&& self.files_only == other.files_only
        &&& self.options == other.options
        &&& self.separator == other.separator
        &&& self.home == other.home
    }

    /// The files that a listing of `dir` counts.
    pub open spec fn files_in_listing(&self, dir: int, entries: Seq<Entry>) -> Seq<(Seq<char>, u64)> {
        listed_files(self.dirs.nodes@[dir].path@, entries, self.options, self.separator)
    }

    /// The sums of a listing of `dir` fit into the counters.
    pub open spec fn has_room(&self, dir: int, entries: Seq<Entry>) -> bool {
        let files = self.files_in_listing(dir, entries);
        &&& self.state.total_bytes + sum_sizes(files) <= u64::MAX
        &&& self.state.file_count + files.len() <= u64::MAX
    }

    /// Directories at `depth` have their directories walked too.
    pub open spec fn goes_deeper(&self, depth: int) -> bool {
        match self.options.max_depth {
            Some(max) => depth < max,
            None => true,
        }
    }

    /// A scan of the directory `root` that has read nothing yet; the root has the number 0.
    pub fn new(
        root: String,
        top_n: usize,
        files_only: bool,
        options: ScanOptions,
        separator: char,
        home: Option<String>,
    ) -> (r: Self)
        ensures
            r.wf(),
            r.dirs.nodes@.len() == 1,
            r.dirs.nodes@[0].path == root,
            r.dirs.nodes@[0].parent is None,
            r.dirs.visits@.len() == 0,
            r.dirs.found@.len() == 0,
            r.state.lists.top_files@.len() == 0,
            r.state.lists.top_dirs@.len() == 0,
            r.state.lists.dir_files@ == Map::<Seq<char>, Seq<SizeEntry>>::empty(),
            r.state.lists.current_path@.len() == 0,
            r.state.total_bytes == 0,
            r.state.file_count == 0,
            r.state.dir_count == 0,
            r.state.error_count == 0,
            !r.state.done,
            r.min_top_size == 0,
            r.dirs_processed == 0,
            r.top_n == top_n,
            r.files_only == files_only,
            r.options == options,
            r.separator == separator,
            r.home == home,
            lists_largest(r, Multiset::empty()),
            accounts_for(r, Seq::empty()),
            are_known(r.dirs.parents(), r.dirs.paths(), Seq::empty(), separator),
    {
        let mut dirs = DirTree::new(top_n, separator);
        let _ = dirs.add_dir(root, None);
        let r = Scan {
            state: ScanState::new(),
            dirs,
            min_top_size: 0,
            dirs_processed: 0,
            top_n,
            files_only,
            options,
            separator,
            home,
        };
        proof {
            broadcast use vstd::seq_lib::group_to_multiset_ensures;
            assert(r.state.lists.top_files@.to_multiset() =~= Multiset::empty());
            let none = Seq::<SizeEntry>::empty();
            assert(none.to_multiset() =~= Multiset::empty());
            assert(views(none) =~= counted_in(
                r.dirs.paths(),
                Seq::empty(),
                r.options,
                r.separator,
            ));
            assert(r.dirs.visits@ =~= Seq::empty());
            assert(r.dirs.found@ =~= Seq::empty());
            assert(found_views(r.dirs.found@) =~= Seq::empty());
        }
        r
    }
}

/// Counts `local_bytes` found directly in `dir` for it and for every directory above it, and
/// now and then brings the lists of directories up to date.
pub fn flush_dir_sizes(run: &mut Scan, dir: usize, local_bytes: u64)
    requires
        old(run).state.lists.wf(),
        old(run).dirs.wf(),
        dir < old(run).dirs.nodes@.len(),
        total_bytes(old(run).dirs.visits@) + local_bytes <= u64::MAX,
    ensures
        final(run).set_up_like(*old(run)),
        final(run).dirs.wf(),
        final(run).dirs.visits@ == old(run).dirs.visits@.push(
            (Visit { dir: dir as int, bytes: local_bytes as nat }),
        ),
        final(run).dirs.found == old(run).dirs.found,
        final(run).dirs.top_n == old(run).dirs.top_n,
        final(run).dirs.separator == old(run).dirs.separator,
        final(run).dirs.parents() == old(run).dirs.parents(),
        final(run).dirs.paths() == old(run).dirs.paths(),
        forall|i: int|
            0 <= i < old(run).dirs.nodes@.len() ==> (#[trigger] final(run).dirs.nodes@[i]).files
                == old(run).dirs.nodes@[i].files,
        final(run).dirs_processed == wrapped(old(run).dirs_processed + 1),
        final(run).min_top_size == old(run).min_top_size,
        final(run).state.total_bytes == old(run).state.total_bytes,
        final(run).state.file_count == old(run).state.file_count,
        final(run).state.dir_count == old(run).state.dir_count,
        final(run).state.error_count == old(run).state.error_count,
        final(run).state.done == old(run).state.done,
        final(run).state.lists.wf(),
        final(run).state.lists.top_files == old(run).state.lists.top_files,
        final(run).state.lists.current_path == old(run).state.lists.current_path,
        if old(run).dirs_processed % FLUSH_EVERY == 0 && old(run).dirs_processed > 0 {
            shows_dirs(final(run).state.lists, final(run).dirs)
        } else {
            final(run).state.lists == old(run).state.lists
        },
{
    run.dirs.add_bytes(dir, local_bytes);
    let count: u64 = run.dirs_processed;
    run.dirs_processed = count.wrapping_add(1);
    if count % FLUSH_EVERY == 0 && count > 0 {
        flush_top_dirs(&mut run.state.lists, &run.dirs);
    }
}

/// The files that are offered to the list of the largest.
fn pick_candidates(files: &Vec<SizeEntry>, full: bool, min: u64) -> (r: Vec<SizeEntry>)
    ensures
        r@ == candidates(files@, 0, full, min),
{
    let mut out: Vec<SizeEntry> = Vec::new();
    let mut i: usize = 0;
    while i < files.len()
        invariant
            i <= files@.len(),
            out@ == candidates(files@.take(i as int), 0, full, min),
        decreases files@.len() - i,
    {
        assert(files@.take(i + 1).drop_last() =~= files@.take(i as int));
        if !full || files[i].size > min {
            out.push(files[i].clone());
        }
        i += 1;
    }
    assert(files@.take(files@.len() as int) =~= files@);
    out
}

/// The lists after the files `offered` were put to the list of the largest.
pub open spec fn listed_with(
    before: Scan,
    after: Scan,
    offered: Seq<SizeEntry>,
) -> bool {
    let was = before.state.lists;
    let is = after.state.lists;
    if offered.len() == 0 {
        &&& is.top_files@ == was.top_files@
        &&& is.current_path == was.current_path
        &&& after.min_top_size == before.min_top_size
    } else {
        &&& is_top(
            is.top_files@,
            was.top_files@.to_multiset().add(offered.to_multiset()),
            before.top_n as nat,
        )
        &&& is.current_path@ == shortened(offered.last().path@, text_of(before.home))
        &&& after.min_top_size == (if is.top_files@.len() > 0 {
            is.top_files@.last().size
        } else {
            0
        })
    }
}

/// Puts `offered` to the list of the largest files.
pub fn offer_files(run: &mut Scan, offered: &Vec<SizeEntry>)
    requires
        old(run).state.lists.wf(),
        old(run).state.lists.top_files@.len() <= old(run).top_n,
    ensures
        listed_with(*old(run), *final(run), offered@),
        final(run).set_up_like(*old(run)),
        final(run).dirs == old(run).dirs,
        final(run).dirs_processed == old(run).dirs_processed,
        final(run).state.total_bytes == old(run).state.total_bytes,
        final(run).state.file_count == old(run).state.file_count,
        final(run).state.dir_count == old(run).state.dir_count,
        final(run).state.error_count == old(run).state.error_count,
        final(run).state.done == old(run).state.done,
        final(run).state.lists.wf(),
        final(run).state.lists.top_files@.len() <= old(run).top_n,
        final(run).state.lists.top_dirs == old(run).state.lists.top_dirs,
        final(run).state.lists.dir_files == old(run).state.lists.dir_files,
{
    if offered.len() == 0 {
        return;
    }
    let last: &SizeEntry = &offered[offered.len() - 1];
    let home: Option<&str> = match &run.home {
        Some(h) => Some(h.as_str()),
        None => None,
    };
    let path: String = shorten_path(last.path.as_str(), home);
    run.state.lists.current_path = path;
    insert_all(&mut run.state.lists.top_files, offered, run.top_n);
    let len: usize = run.state.lists.top_files.len();
    run.min_top_size = if len > 0 {
        run.state.lists.top_files[len - 1].size
    } else {
        0
    };
}

/// The directories of a listing that are walked next: numbered behind those known so far, in
/// the order of the listing.
pub open spec fn next_dirs(before: Scan, depth: int, entries: Seq<Entry>) -> Seq<usize> {
    if before.goes_deeper(depth) {
        listed_dirs(entries, before.options)
    } else {
        Seq::empty()
    }
}

/// `subs` names the directories `places` of the listing of `dir`, and they stand behind the
/// ones known before.
pub open spec fn registers(
    before: DirTree,
    after: DirTree,
    dir: int,
    depth: int,
    entries: Seq<Entry>,
    separator: char,
    places: Seq<usize>,
    subs: Seq<SubDir>,
) -> bool {
    let n = before.nodes@.len();
    &&& subs.len() == places.len()
    &&& forall|j: int|
        0 <= j < subs.len() ==> {
            &&& (#[trigger] subs[j]).entry == places[j]
            &&& subs[j].dir == n + j
            &&& subs[j].depth == depth + 1
        }
    &&& after.paths() == before.paths() + Seq::new(
        places.len(),
        |j: int| joined(before.nodes@[dir].path@, entries[places[j] as int].name@, separator),
    )
    &&& after.parents() == before.parents() + Seq::new(places.len(), |j: int| Some(dir as usize))
}

/// The scan `after` is `before` with the listing `entries` of `dir`, whose counted files are
/// `files`, taken in.
pub open spec fn took_in(
    before: Scan,
    after: Scan,
    dir: int,
    depth: int,
    entries: Seq<Entry>,
    files: Seq<SizeEntry>,
    subs: Seq<SubDir>,
) -> bool {
    let bytes = sum_sizes(views(files));
    let counts = !before.files_only && bytes > 0;
    &&& after.set_up_like(before)
    &&& after.state.total_bytes == before.state.total_bytes + bytes
    &&& after.state.file_count == before.state.file_count + files.len()
    &&& after.state.dir_count == wrapped(before.state.dir_count + 1)
    &&& after.state.error_count == wrapped(before.state.error_count + failures(entries))
    &&& after.state.done == before.state.done
    &&& listed_with(
        before,
        after,
        candidates(files, 0, before.is_full(), before.min_top_size),
    )
    &&& after.dirs.found@ == (if before.files_only {
        before.dirs.found@
    } else {
        before.dirs.found@ + files.map_values(|e: SizeEntry| Found { dir, entry: e })
    })
    &&& after.dirs.visits@ == (if counts {
        before.dirs.visits@.push((Visit { dir, bytes }))
    } else {
        before.dirs.visits@
    })
    &&& after.dirs_processed == (if counts {
        wrapped(before.dirs_processed + 1)
    } else {
        before.dirs_processed
    })
    &&& if counts && before.dirs_processed % FLUSH_EVERY == 0 && before.dirs_processed > 0 {
        shows_dirs(after.state.lists, after.dirs)
    } else {
        &&& after.state.lists.top_dirs == before.state.lists.top_dirs
        &&& after.state.lists.dir_files == before.state.lists.dir_files
    }
    &&& registers(
        before.dirs,
        after.dirs,
        dir,
        depth,
        entries,
        before.separator,
        next_dirs(before, depth, entries),
        subs,
    )
}

/// The scan `after` is `before` with the listing `entries` of `dir` taken in.
pub open spec fn walked(
    before: Scan,
    after: Scan,
    dir: int,
    depth: int,
    entries: Seq<Entry>,
    subs: Seq<SubDir>,
) -> bool {
    exists|files: Seq<SizeEntry>|
        #![trigger views(files)]
        views(files) == before.files_in_listing(dir, entries) && took_in(
            before,
            after,
            dir,
            depth,
            entries,
            files,
            subs,
        )
}

/// Lists `files` for `dir`.
fn list_files(dirs: &mut DirTree, dir: usize, files: &Vec<SizeEntry>)
    requires
        old(dirs).wf(),
        dir < old(dirs).nodes@.len(),
    ensures
        final(dirs).wf(),
        final(dirs).found@ == old(dirs).found@ + files@.map_values(
            |e: SizeEntry| Found { dir: dir as int, entry: e },
        ),
        final(dirs).visits == old(dirs).visits,
        final(dirs).top_n == old(dirs).top_n,
        final(dirs).separator == old(dirs).separator,
        final(dirs).parents() == old(dirs).parents(),
        final(dirs).paths() == old(dirs).paths(),
{
    let ghost before = *dirs;
    let ghost all = files@.map_values(|e: SizeEntry| Found { dir: dir as int, entry: e });
    let mut i: usize = 0;
    assert(before.found@ + all.take(0) =~= before.found@);
    while i < files.len()
        invariant
            i <= files@.len(),
            all == files@.map_values(|e: SizeEntry| Found { dir: dir as int, entry: e }),
            dirs.wf(),
            dir < before.nodes@.len(),
            dirs.found@ == before.found@ + all.take(i as int),
            dirs.visits == before.visits,
            dirs.top_n == before.top_n,
            dirs.separator == before.separator,
            dirs.parents() == before.parents(),
            dirs.paths() == before.paths(),
        decreases files@.len() - i,
    {
        assert(dirs.paths().len() == before.paths().len());
        dirs.insert_dir_file(dir, files[i].clone());
        assert(dirs.found@ =~= before.found@ + all.take(i + 1));
        i += 1;
    }
    assert(all.take(files@.len() as int) =~= all);
}

/// Adds the directories at `places` of the listing of `dir`.
fn add_subdirs(
    dirs: &mut DirTree,
    dir: usize,
    depth: usize,
    entries: &Vec<Entry>,
    places: &Vec<usize>,
    separator: char,
) -> (subs: Vec<SubDir>)
    requires
        old(dirs).wf(),
        dir < old(dirs).nodes@.len(),
        depth < usize::MAX,
        forall|j: int| 0 <= j < places@.len() ==> (#[trigger] places@[j]) < entries@.len(),
    ensures
        final(dirs).wf(),
        registers(
            *old(dirs),
            *final(dirs),
            dir as int,
            depth as int,
            entries@,
            separator,
            places@,
            subs@,
        ),
        final(dirs).found == old(dirs).found,
        final(dirs).visits == old(dirs).visits,
        final(dirs).top_n == old(dirs).top_n,
        final(dirs).separator == old(dirs).separator,
{
    let ghost before = *dirs;
    let mut subs: Vec<SubDir> = Vec::new();
    let mut i: usize = 0;
    while i < places.len()
        invariant
            i <= places@.len(),
            dirs.wf(),
            dir < before.nodes@.len(),
            depth < usize::MAX,
            forall|j: int| 0 <= j < places@.len() ==> (#[trigger] places@[j]) < entries@.len(),
            dirs.found == before.found,
            dirs.visits == before.visits,
            dirs.top_n == before.top_n,
            dirs.separator == before.separator,
            dirs.nodes@.len() == before.nodes@.len() + i,
            subs@.len() == i,
            forall|j: int| 0 <= j < before.nodes@.len() ==> dirs.nodes@[j] == before.nodes@[j],
            forall|j: int|
                0 <= j < i ==> {
                    &&& (#[trigger] subs@[j]).entry == places@[j]
                    &&& subs@[j].dir == before.nodes@.len() + j
                    &&& subs@[j].depth == depth + 1
                    &&& dirs.nodes@[before.nodes@.len() + j].path@ == joined(
                        before.nodes@[dir as int].path@,
                        entries@[places@[j] as int].name@,
                        separator,
                    )
                    &&& dirs.nodes@[before.nodes@.len() + j].parent == Some(dir)
                },
        decreases places@.len() - i,
    {
        let place: usize = places[i];
        let path: String = join_path(
            dirs.nodes[dir].path.as_str(),
            entries[place].name.as_str(),
            separator,
        );
        let ghost nodes = dirs.nodes@;
        let ghost known = subs@;
        let number: usize = dirs.add_dir(path, Some(dir));
        subs.push(SubDir { entry: place, dir: number, depth: depth + 1 });
        proof {
            let n = before.nodes@.len();
            assert forall|j: int| 0 <= j < i implies subs@[j] == #[trigger] known[j]
                && dirs.nodes@[n + j] == nodes[n + j] by {}
            assert(nodes[dir as int] == before.nodes@[dir as int]);
        }
        i += 1;
    }
    proof {
        let names = Seq::new(
            places@.len(),
            |j: int|
                joined(
                    before.nodes@[dir as int].path@,
                    entries@[places@[j] as int].name@,
                    separator,
                ),
        );
        let n = before.nodes@.len();
        let holders = Seq::new(places@.len(), |j: int| Some(dir as int as usize));
        assert forall|j: int| 0 <= j < dirs.nodes@.len() implies #[trigger] dirs.paths()[j] == (
        before.paths() + names)[j] by {
            if j >= n {
                assert(subs@[j - n].entry == places@[j - n]);
            }
        }
        assert forall|j: int| 0 <= j < dirs.nodes@.len() implies #[trigger] dirs.parents()[j] == (
        before.parents() + holders)[j] by {
            if j >= n {
                assert(subs@[j - n].entry == places@[j - n]);
            }
        }
        assert(dirs.paths() =~= before.paths() + names);
        assert(dirs.parents() =~= before.parents() + holders);
    }
    subs
}

/// Lists the files of a listing of `dir` unless directories are left out, and adds the
/// directories at `places`.
fn grow_tree(
    dirs: &mut DirTree,
    dir: usize,
    depth: usize,
    entries: &Vec<Entry>,
    places: &Vec<usize>,
    separator: char,
    files_only: bool,
    files: &Vec<SizeEntry>,
) -> (subs: Vec<SubDir>)
    requires
        old(dirs).wf(),
        dir < old(dirs).nodes@.len(),
        depth < usize::MAX,
        forall|j: int| 0 <= j < places@.len() ==> (#[trigger] places@[j]) < entries@.len(),
    ensures
        final(dirs).wf(),
        registers(
            *old(dirs),
            *final(dirs),
            dir as int,
            depth as int,
            entries@,
            separator,
            places@,
            subs@,
        ),
        dir < final(dirs).nodes@.len(),
        final(dirs).found@ == (if files_only {
            old(dirs).found@
        } else {
            old(dirs).found@ + files@.map_values(
                |e: SizeEntry| Found { dir: dir as int, entry: e },
            )
        }),
        final(dirs).visits == old(dirs).visits,
        final(dirs).top_n == old(dirs).top_n,
        final(dirs).separator == old(dirs).separator,
{
    let ghost before = *dirs;
    if !files_only {
        list_files(dirs, dir, files);
    }
    let ghost mid = *dirs;
    proof {
        assert(mid.paths().len() == before.paths().len());
        assert(mid.paths()[dir as int] == before.paths()[dir as int]);
    }
    let subs: Vec<SubDir> = add_subdirs(dirs, dir, depth, entries, places, separator);
    proof {
        assert(dirs.paths().len() == before.paths().len() + places@.len());
        let here = before.nodes@[dir as int].path@;
        assert(mid.nodes@[dir as int].path@ == here);
        assert(dirs.paths() =~= before.paths() + Seq::new(
            places@.len(),
            |j: int| joined(here, entries@[places@[j] as int].name@, separator),
        ));
    }
    subs
}

/// Takes in the listing of the directory `dir` at `depth` and returns the directories to read
/// next.
pub fn walk_dir(run: &mut Scan, dir: usize, depth: usize, entries: &Vec<Entry>) -> (subs: Vec<SubDir>)
    requires
        old(run).wf(),
        dir < old(run).dirs.nodes@.len(),
        depth < usize::MAX,
        old(run).has_room(dir as int, entries@),
    ensures
        final(run).wf(),
        walked(*old(run), *final(run), dir as int, depth as int, entries@, subs@),
{
    let ghost before = *run;
    let listing: Listing = read_listing(
        &run.dirs.nodes[dir].path,
        entries,
        &run.options,
        run.separator,
    );
    let ghost files = listing.files@;
    proof {
        assert(entries.len() == entries@.len());
        assert forall|j: int| 0 <= j < listing.dirs@.len() implies (#[trigger] listing.dirs@[j])
            < entries@.len() by {
            law_only_walked_dirs(entries@, run.options, j);
        }
        assert(views(files).len() == files.len());
    }
    run.state.dir_count = run.state.dir_count.wrapping_add(1);
    run.state.error_count = run.state.error_count.wrapping_add(listing.failed);
    let offered: Vec<SizeEntry> = pick_candidates(
        &listing.files,
        run.state.lists.top_files.len() >= run.top_n,
        run.min_top_size,
    );
    run.state.total_bytes = run.state.total_bytes + listing.bytes;
    run.state.file_count = run.state.file_count + listing.files.len() as u64;
    offer_files(run, &offered);
    let deeper: bool = match run.options.max_depth {
        Some(max) => depth < max,
        None => true,
    };
    let places: Vec<usize> = if deeper {
        listing.dirs
    } else {
        Vec::new()
    };
    assert(places@ =~= next_dirs(before, depth as int, entries@));
    let subs: Vec<SubDir> = grow_tree(
        &mut run.dirs,
        dir,
        depth,
        entries,
        &places,
        run.separator,
        run.files_only,
        &listing.files,
    );
    if !run.files_only && listing.bytes > 0 {
        flush_dir_sizes(run, dir, listing.bytes);
        assert(run.dirs.visits@.drop_last() =~= before.dirs.visits@);
    }
    proof {
        assert(took_in(before, *run, dir as int, depth as int, entries@, files, subs@));
    }
    subs
}

/// What a walk of the directories comes upon.
pub enum ScanEvent {
    /// The scan was told to stop before a directory was read.
    Stopped,
    /// A directory could not be read.
    Unreadable,
    /// The directory with the number `dir`, at `depth` below the root, was read.
    Listed { dir: usize, depth: usize, entries: Vec<Entry> },
    /// No directory is left.
    Finished,
}

impl Scan {
    /// The scan knows the directory of `event`, and what it adds fits into the counters.
    pub open spec fn can_take(&self, event: ScanEvent) -> bool {
        event matches ScanEvent::Listed { dir, depth, entries } ==> {
            &&& dir < self.dirs.nodes@.len()
            &&& depth < usize::MAX
            &&& self.has_room(dir as int, entries@)
        }
    }

    /// Whether the scan knows the directory of `event`, and what it adds fits into the counters.
    pub fn accepts(&self, event: &ScanEvent) -> (r: bool)
        ensures
            r == self.can_take(*event),
    {
        match event {
            ScanEvent::Listed { dir, depth, entries } => {
                if *dir >= self.dirs.nodes.len() || *depth == usize::MAX {
                    return false;
                }
                match measure(&self.dirs.nodes[*dir].path, entries, &self.options, self.separator) {
                    Some((bytes, count)) => self.state.total_bytes <= u64::MAX - bytes
                        && self.state.file_count <= u64::MAX - count,
                    None => false,
                }
            },
            _ => true,
        }
    }
}

/// The scan `after` is `before` with `event` taken in, and `subs` are the directories to read
/// next.
pub open spec fn advanced(before: Scan, after: Scan, event: ScanEvent, subs: Seq<SubDir>) -> bool {
    &&& !(event is Listed) ==> {
        &&& subs.len() == 0
        &&& after.set_up_like(before)
        &&& after.dirs == before.dirs
        &&& after.min_top_size == before.min_top_size
        &&& after.dirs_processed == before.dirs_processed
        &&& after.state.total_bytes == before.state.total_bytes
        &&& after.state.file_count == before.state.file_count
        &&& after.state.dir_count == before.state.dir_count
    }
    &&& match event {
        ScanEvent::Stopped => after.state == before.state,
        ScanEvent::Unreadable => {
            &&& after.state.error_count == wrapped(before.state.error_count + 1)
            &&& after.state.lists == before.state.lists
            &&& after.state.done == before.state.done
        },
        ScanEvent::Listed { dir, depth, entries } => walked(
            before,
            after,
            dir as int,
            depth as int,
            entries@,
            subs,
        ),
        ScanEvent::Finished => {
            &&& after.state.done
            &&& after.state.error_count == before.state.error_count
            &&& after.state.lists.top_files == before.state.lists.top_files
            &&& after.state.lists.current_path == before.state.lists.current_path
            &&& if before.files_only {
                after.state.lists == before.state.lists
            } else {
                shows_dirs(after.state.lists, after.dirs)
            }
        },
    }
}

/// Takes in what a walk came upon and returns the directories to read next.
pub fn scan(run: &mut Scan, event: &ScanEvent) -> (subs: Vec<SubDir>)
    requires
        old(run).wf(),
        old(run).can_take(*event),
    ensures
        final(run).wf(),
        advanced(*old(run), *final(run), *event, subs@),
{
    match event {
        ScanEvent::Stopped => Vec::new(),
        ScanEvent::Unreadable => {
            run.state.error_count = run.state.error_count.wrapping_add(1);
            Vec::new()
        },
        ScanEvent::Listed { dir, depth, entries } => walk_dir(run, *dir, *depth, entries),
        ScanEvent::Finished => {
            if !run.files_only {
                flush_top_dirs(&mut run.state.lists, &run.dirs);
            }
            run.state.done = true;
            Vec::new()
        },
    }
}

proof fn lemma_candidates(files: Seq<SizeEntry>, free: nat, full: bool, min: u64)
    ensures
        !full ==> candidates(files, free, full, min) == files,
        forall|e: SizeEntry|
            candidates(files, free, full, min).to_multiset().count(e) <= #[trigger] files.to_multiset().count(
                e,
            ),
        forall|e: SizeEntry|
            candidates(files, free, full, min).to_multiset().count(e) < #[trigger] files.to_multiset().count(
                e,
            ) ==> e.size <= min,
    decreases files.len(),
{
    broadcast use vstd::seq_lib::group_to_multiset_ensures;

    if files.len() > 0 {
        let rest = files.drop_last();
        lemma_candidates(rest, free, full, min);
        let before = candidates(rest, free, full, min);
        assert(files =~= rest.push(files.last()));
        assert forall|e: SizeEntry|
            candidates(files, free, full, min).to_multiset().count(e) <= #[trigger] files.to_multiset().count(
                e,
            ) by {
            assert(before.to_multiset().count(e) <= rest.to_multiset().count(e));
        }
        assert forall|e: SizeEntry|
            candidates(files, free, full, min).to_multiset().count(e) < #[trigger] files.to_multiset().count(
                e,
            ) implies e.size <= min by {
            assert(before.to_multiset().count(e) <= rest.to_multiset().count(e));
        }
    } else {
        assert(candidates(files, free, full, min) =~= files);
    }
}

/// The largest of a collection are no smaller than any as many others of it.
proof fn lemma_smallest_kept(
    list: Seq<SizeEntry>,
    all: Multiset<SizeEntry>,
    r: Seq<SizeEntry>,
    n: nat,
    j: int,
)
    requires
        list.len() == n,
        ranked(list),
        forall|x: SizeEntry| list.to_multiset().count(x) <= #[trigger] all.count(x),
        is_top(r, all, n),
        0 <= j < r.len(),
    ensures
        r[j].size >= list.last().size,
{
    broadcast use vstd::seq_lib::group_to_multiset_ensures;
    broadcast use vstd::multiset::group_multiset_axioms;

    if r[j].size < list.last().size {
        assert forall|x: SizeEntry| list.to_multiset().count(x) <= #[trigger] r.to_multiset().count(x) by {
            if list.to_multiset().count(x) > r.to_multiset().count(x) {
                assert(all.count(x) > r.to_multiset().count(x));
                assert(r[j].size >= x.size);
                assert(list.contains(x));
                let k = choose|k: int| 0 <= k < list.len() && list[k] == x;
                assert(list[k].size >= list[list.len() - 1].size);
            }
        }
        assert(list.to_multiset().len() == n);
        assert(r.len() <= n);
        assert(r.to_multiset().count(r[j]) > 0);
        lemma_longer(list, r);
        lemma_all_taken(list, r.to_multiset(), r[j]);
        assert(list.contains(r[j]));
        let k = choose|k: int| 0 <= k < list.len() && list[k] == r[j];
        assert(list[k].size >= list[list.len() - 1].size);
    }
}

proof fn lemma_longer(list: Seq<SizeEntry>, r: Seq<SizeEntry>)
    requires
        forall|x: SizeEntry| list.to_multiset().count(x) <= #[trigger] r.to_multiset().count(x),
    ensures
        list.len() <= r.len(),
{
    broadcast use vstd::seq_lib::group_to_multiset_ensures;
    broadcast use vstd::multiset::group_multiset_axioms;

    let a = list.to_multiset();
    let b = r.to_multiset();
    let rest = b.sub(a);
    assert(a.add(rest) =~= b) by {
        assert forall|x: SizeEntry| #[trigger] a.add(rest).count(x) == b.count(x) by {
            assert(a.count(x) <= b.count(x));
        }
    }
    assert(b.len() == a.len() + rest.len());
}

/// Passing files over loses nothing: where `list` holds the `n` largest of `from`, the largest
/// of `list` and the offered ones of `files` are those of `from` and all of `files`.
pub proof fn law_passing_over(
    list: Seq<SizeEntry>,
    from: Multiset<SizeEntry>,
    files: Seq<SizeEntry>,
    free: nat,
    min: u64,
    r: Seq<SizeEntry>,
    n: nat,
)
    requires
        is_top(list, from, n),
        knows_smallest(list, n, min),
        is_top(
            r,
            list.to_multiset().add(candidates(files, free, list.len() >= n, min).to_multiset()),
            n,
        ),
    ensures
        is_top(r, from.add(files.to_multiset()), n),
{
    broadcast use vstd::seq_lib::group_to_multiset_ensures;
    broadcast use vstd::multiset::group_multiset_axioms;

    let offered = candidates(files, free, list.len() >= n, min);
    law_top_of_tops(list, from, offered.to_multiset(), r, n);
    let kept = from.add(offered.to_multiset());
    let all = from.add(files.to_multiset());
    lemma_candidates(files, free, list.len() >= n, min);
    if list.len() >= n {
        assert forall|e: SizeEntry| r.to_multiset().count(e) <= #[trigger] all.count(e) by {
            assert(r.to_multiset().count(e) <= kept.count(e));
            assert(offered.to_multiset().count(e) <= files.to_multiset().count(e));
        }
        assert forall|e: SizeEntry, j: int|
            #![trigger all.count(e), r[j]]
            0 <= j < r.len() && r.to_multiset().count(e) < all.count(e) implies r[j].size >= e.size by {
            if r.to_multiset().count(e) >= kept.count(e) {
                assert(offered.to_multiset().count(e) < files.to_multiset().count(e));
                assert(e.size <= min);
                lemma_smallest_kept(list, kept, r, n, j);
            }
        }
    }
}

/// The root takes everything that was found.
pub proof fn law_root_holds_everything(run: Scan)
    requires
        run.wf(),
        !run.files_only,
    ensures
        run.dirs.nodes@[0].size == run.state.total_bytes,
{
    reveal(DirTree::wf);
    let parents = run.dirs.parents();
    assert(parents.len() > 0);
    assert forall|d: int| 0 <= d < parents.len() implies #[trigger] is_within(parents, d, 0) by {
        assert forall|i: int| 0 < i < parents.len() implies (#[trigger] parents[i]) is Some
            && parents[i]->0 < i by {
            assert(run.dirs.nodes@[i].parent == parents[i]);
        }
        lemma_within_root(parents, d);
    }
    lemma_root_total(parents, run.dirs.visits@);
}

proof fn lemma_within_root(parents: Seq<Option<usize>>, d: int)
    requires
        0 <= d < parents.len(),
        forall|i: int|
            0 < i < parents.len() ==> (#[trigger] parents[i]) is Some && parents[i]->0 < i,
    ensures
        is_within(parents, d, 0),
    decreases d,
{
    if d > 0 {
        assert(parents[d] is Some);
        lemma_within_root(parents, parents[d]->0 as int);
    }
}

proof fn lemma_root_total(parents: Seq<Option<usize>>, visits: Seq<Visit>)
    requires
        forall|d: int| 0 <= d < parents.len() ==> #[trigger] is_within(parents, d, 0),
        forall|j: int| 0 <= j < visits.len() ==> 0 <= (#[trigger] visits[j]).dir < parents.len(),
    ensures
        bytes_within(parents, visits, 0) == total_bytes(visits),
    decreases visits.len(),
{
    if visits.len() > 0 {
        let rest = visits.drop_last();
        assert forall|j: int| 0 <= j < rest.len() implies 0 <= (#[trigger] rest[j]).dir
            < parents.len() by {
            assert(rest[j] == visits[j]);
        }
        lemma_root_total(parents, rest);
        assert(0 <= visits[visits.len() - 1].dir < parents.len());
    }
}

/// A deletion may come between two steps of a scan: the scan stays in order.
pub proof fn law_deletion_keeps_scan(run: Scan, lists: ScanLists, path: Seq<char>, is_dir: bool)
    requires
        run.wf(),
        lists.wf(),
        forgets(run.state.lists, lists, path, is_dir),
    ensures
        (Scan { state: ScanState { lists, ..run.state }, ..run }).wf(),
{
    lemma_cut_length(run.state.lists.top_files@, Cut::Below, path);
    lemma_cut_length(run.state.lists.top_files@, Cut::Path, path);
}

/// A deletion leaves no more files listed than there were, and the same files where it leaves
/// as many.
proof fn lemma_cut_length(list: Seq<SizeEntry>, cut: Cut, path: Seq<char>)
    ensures
        cut_list(list, cut, path).len() <= list.len(),
        cut_list(list, cut, path).len() == list.len() ==> cut_list(list, cut, path) == list,
    decreases list.len(),
{
    reveal(Seq::filter);
    if list.len() > 0 {
        lemma_cut_length(list.drop_last(), cut, path);
        assert(list.drop_last().push(list.last()) =~= list);
    } else {
        assert(cut_list(list, cut, path) =~= list);
    }
}

/// The files listed are the largest of `all`, which are as many as were counted.
pub open spec fn lists_largest(run: Scan, all: Multiset<SizeEntry>) -> bool {
    &&& is_top(run.state.lists.top_files@, all, run.top_n as nat)
    &&& run.state.file_count == all.len()
}

/// A scan lists the largest of all files that it was told of: each listing that is taken in
/// keeps it so.
pub proof fn law_scan_lists_largest(
    before: Scan,
    after: Scan,
    dir: int,
    depth: int,
    entries: Seq<Entry>,
    files: Seq<SizeEntry>,
    subs: Seq<SubDir>,
    all: Multiset<SizeEntry>,
)
    requires
        before.wf(),
        lists_largest(before, all),
        took_in(before, after, dir, depth, entries, files, subs),
    ensures
        lists_largest(after, all.add(files.to_multiset())),
{
    broadcast use vstd::seq_lib::group_to_multiset_ensures;
    broadcast use vstd::multiset::group_multiset_axioms;

    let n = before.top_n as nat;
    let list = before.state.lists.top_files@;
    let r = after.state.lists.top_files@;
    let offered = candidates(files, 0, before.is_full(), before.min_top_size);
    if offered.len() == 0 {
        assert(offered =~= Seq::empty());
        assert(list.to_multiset().add(offered.to_multiset()) =~= list.to_multiset());
        lemma_top_of_itself(list, all, n);
    }
    law_passing_over(list, all, files, 0, before.min_top_size, r, n);
}

proof fn lemma_top_of_itself(list: Seq<SizeEntry>, from: Multiset<SizeEntry>, n: nat)
    requires
        is_top(list, from, n),
    ensures
        is_top(list, list.to_multiset(), n),
{
    broadcast use vstd::seq_lib::group_to_multiset_ensures;

}

/// No directory deeper than allowed is read.
pub proof fn law_depth_is_limited(
    before: Scan,
    after: Scan,
    dir: int,
    depth: int,
    entries: Seq<Entry>,
    subs: Seq<SubDir>,
    j: int,
)
    requires
        walked(before, after, dir, depth, entries, subs),
        0 <= j < subs.len(),
    ensures
        subs[j].depth == depth + 1,
        before.options.max_depth matches Some(max) ==> subs[j].depth <= max,
{
}

/// `subs` holds the entry `j` of a listing.
pub open spec fn reads_next(subs: Seq<SubDir>, j: int) -> bool {
    exists|k: int| 0 <= k < subs.len() && (#[trigger] subs[k]).entry == j
}

/// The directories to read next are just those of the listing that no pattern excludes, that are
/// not known to be on another file system than the one that the scan stays on, and that lie no
/// deeper than allowed. Each gets a number of its own behind those known before, with its path
/// and the directory that holds it.
pub proof fn law_next_directories(
    before: Scan,
    after: Scan,
    dir: int,
    depth: int,
    entries: Seq<Entry>,
    subs: Seq<SubDir>,
)
    requires
        walked(before, after, dir, depth, entries, subs),
        entries.len() <= usize::MAX,
        0 <= dir < before.dirs.nodes@.len(),
    ensures
        forall|j: int|
            #![trigger entries[j]]
            0 <= j < entries.len() ==> (reads_next(subs, j) <==> {
                &&& entries[j].kind == EntryKind::Dir
                &&& !excluded(before.options.exclude@, entries[j].name@)
                &&& !(before.options.one_file_system && entries[j].dev is Some
                    && entries[j].dev->0 != before.options.root_dev)
                &&& before.options.max_depth is None || depth + 1 <= before.options.max_depth->0
            }),
        forall|k: int|
            0 <= k < subs.len() ==> {
                &&& (#[trigger] subs[k]).entry < entries.len()
                &&& subs[k].depth == depth + 1
                &&& subs[k].dir == before.dirs.nodes@.len() + k
                &&& subs[k].dir < after.dirs.nodes@.len()
                &&& after.dirs.nodes@[subs[k].dir as int].path@ == joined(
                    before.dirs.nodes@[dir].path@,
                    entries[subs[k].entry as int].name@,
                    before.separator,
                )
                &&& after.dirs.nodes@[subs[k].dir as int].parent == Some(dir as usize)
            },
        forall|k: int, l: int|
            0 <= k < l < subs.len() ==> (#[trigger] subs[k]).entry < (#[trigger] subs[l]).entry,
        after.dirs.nodes@.len() == before.dirs.nodes@.len() + subs.len(),
        forall|i: int|
            0 <= i < before.dirs.nodes@.len() ==> (#[trigger] after.dirs.nodes@[i]).path@
                == before.dirs.nodes@[i].path@ && after.dirs.nodes@[i].parent
                == before.dirs.nodes@[i].parent,
{
    let places = next_dirs(before, depth, entries);
    let n = before.dirs.nodes@.len();
    law_every_dir_is_walked(entries, before.options);
    assert(after.dirs.paths().len() == n + places.len());
    assert forall|j: int|
        #![trigger entries[j]]
        0 <= j < entries.len() implies (reads_next(subs, j) <==> {
        &&& entries[j].kind == EntryKind::Dir
        &&& !excluded(before.options.exclude@, entries[j].name@)
        &&& !(before.options.one_file_system && entries[j].dev is Some && entries[j].dev->0
            != before.options.root_dev)
        &&& before.options.max_depth is None || depth + 1 <= before.options.max_depth->0
    }) by {
        if reads_next(subs, j) {
            let k = choose|k: int| 0 <= k < subs.len() && (#[trigger] subs[k]).entry == j;
            assert(places[k] == j as usize);
            assert(places.contains(j as usize));
        }
        if places.contains(j as usize) {
            let k = choose|k: int| 0 <= k < places.len() && places[k] == j as usize;
            assert(subs[k].entry == j);
        }
    }
    assert forall|k: int| 0 <= k < subs.len() implies {
        &&& (#[trigger] subs[k]).entry < entries.len()
        &&& subs[k].depth == depth + 1
        &&& subs[k].dir == n + k
        &&& subs[k].dir < after.dirs.nodes@.len()
        &&& after.dirs.nodes@[subs[k].dir as int].path@ == joined(
            before.dirs.nodes@[dir].path@,
            entries[subs[k].entry as int].name@,
            before.separator,
        )
        &&& after.dirs.nodes@[subs[k].dir as int].parent == Some(dir as usize)
    } by {
        law_only_walked_dirs(entries, before.options, k);
        assert(after.dirs.paths()[n + k] == after.dirs.nodes@[n + k].path@);
        assert(after.dirs.parents()[n + k] == after.dirs.nodes@[n + k].parent);
    }
    assert forall|i: int| 0 <= i < n implies (#[trigger] after.dirs.nodes@[i]).path@
        == before.dirs.nodes@[i].path@ && after.dirs.nodes@[i].parent
        == before.dirs.nodes@[i].parent by {
        assert(after.dirs.paths()[i] == before.dirs.paths()[i]);
        assert(after.dirs.parents()[i] == before.dirs.parents()[i]);
    }
    assert forall|k: int, l: int| 0 <= k < l < subs.len() implies (#[trigger] subs[k]).entry < (
    #[trigger] subs[l]).entry by {
        assert(places[k] < places[l]);
    }
}

/// A listing adds one to the directories, its files that no pattern excludes to the files and to
/// the bytes, and what could not be examined to the errors. It ends nothing.
pub proof fn law_listing_counts(
    before: Scan,
    after: Scan,
    dir: int,
    depth: int,
    entries: Seq<Entry>,
    subs: Seq<SubDir>,
)
    requires
        walked(before, after, dir, depth, entries, subs),
    ensures
        after.state.dir_count == (before.state.dir_count + 1) % 0x1_0000_0000_0000_0000,
        after.state.file_count == before.state.file_count + entries.filter(
            |e: Entry|
                e.kind == EntryKind::File && !excluded(before.options.exclude@, e.name@),
        ).len(),
        after.state.total_bytes == before.state.total_bytes + sum_sizes(
            listed_files(
                before.dirs.nodes@[dir].path@,
                entries,
                before.options,
                before.separator,
            ),
        ),
        after.state.error_count == (before.state.error_count + entries.filter(
            |e: Entry| e.kind == EntryKind::Failed,
        ).len()) % 0x1_0000_0000_0000_0000,
        after.state.done == before.state.done,
{
    let files = choose|files: Seq<SizeEntry>|
        #![trigger views(files)]
        views(files) == before.files_in_listing(dir, entries) && took_in(
            before,
            after,
            dir,
            depth,
            entries,
            files,
            subs,
        );
    assert(views(files).len() == files.len());
    law_every_file_counts(
        before.dirs.nodes@[dir].path@,
        entries,
        before.options,
        before.separator,
    );
    law_failures_are_counted(entries);
}

/// A directory that cannot be read is one error and nothing else; being told to stop changes
/// nothing; and the end, only the end, ends the scan, with the directories shown unless they are
/// left out.
pub proof fn law_events_in_passing(before: Scan, after: Scan, event: ScanEvent, subs: Seq<SubDir>)
    requires
        advanced(before, after, event, subs),
    ensures
        event is Stopped ==> after.state == before.state && subs.len() == 0,
        event is Unreadable ==> after.state == (ScanState {
            error_count: ((before.state.error_count + 1) % 0x1_0000_0000_0000_0000) as u64,
            ..before.state
        }) && subs.len() == 0,
        event is Finished ==> after.state.done && subs.len() == 0 && after.state.total_bytes
            == before.state.total_bytes && after.state.file_count == before.state.file_count
            && after.state.dir_count == before.state.dir_count && after.state.error_count
            == before.state.error_count && after.state.lists.top_files
            == before.state.lists.top_files,
        event is Finished ==> after.state.lists.current_path == before.state.lists.current_path,
        event is Finished && !before.files_only ==> shows_dirs(after.state.lists, after.dirs),
        event is Finished && before.files_only ==> after.state.lists == before.state.lists,
        !(event is Listed) ==> after.top_n == before.top_n && after.files_only == before.files_only
            && after.options == before.options && after.separator == before.separator && after.home
            == before.home && after.min_top_size == before.min_top_size && after.dirs_processed
            == before.dirs_processed,
        !(event is Finished) ==> after.state.done == before.state.done,
        !(event is Listed) ==> after.dirs == before.dirs,
{
}

/// A listing can be taken in just where its directory is known and what it adds leaves the
/// counters below their limits; everything else can be taken in always.
pub proof fn law_room(run: Scan, event: ScanEvent)
    ensures
        !(event is Listed) ==> run.can_take(event),
        event matches ScanEvent::Listed { dir, depth, entries } ==> {
            let files = listed_files(
                run.dirs.nodes@[dir as int].path@,
                entries@,
                run.options,
                run.separator,
            );
            run.can_take(event) <==> dir < run.dirs.nodes@.len() && depth < usize::MAX
                && run.state.total_bytes + sum_sizes(files) <= u64::MAX && run.state.file_count
                + files.len() <= u64::MAX
        },
{
}

/// The path that is shown of a listing is that of the last file that may be among the largest:
/// of the last file at all while the list is not full, and then of the last one that is larger
/// than the smallest listed. Where there is none, the path stays.
pub proof fn law_path_in_progress(
    before: Scan,
    after: Scan,
    dir: int,
    depth: int,
    entries: Seq<Entry>,
    subs: Seq<SubDir>,
)
    requires
        walked(before, after, dir, depth, entries, subs),
    ensures
        ({
            let offered = entries.filter(
                |e: Entry|
                    e.kind == EntryKind::File && !excluded(before.options.exclude@, e.name@) && (
                    before.state.lists.top_files@.len() < before.top_n || e.size
                        > before.min_top_size),
            );
            &&& offered.len() == 0 ==> after.state.lists.current_path
                == before.state.lists.current_path
            &&& offered.len() > 0 ==> after.state.lists.current_path@ == shortened(
                joined(before.dirs.nodes@[dir].path@, offered.last().name@, before.separator),
                text_of(before.home),
            )
        }),
{
    let files = choose|files: Seq<SizeEntry>|
        #![trigger views(files)]
        views(files) == before.files_in_listing(dir, entries) && took_in(
            before,
            after,
            dir,
            depth,
            entries,
            files,
            subs,
        );
    let full = before.is_full();
    let min = before.min_top_size;
    let here = before.dirs.nodes@[dir].path@;
    lemma_offered(here, entries, before.options, before.separator, files, full, min);
    let a = |e: Entry|
        e.kind == EntryKind::File && !excluded(before.options.exclude@, e.name@) && (!full || e.size
            > min);
    let b = |e: Entry|
        e.kind == EntryKind::File && !excluded(before.options.exclude@, e.name@) && (
        before.state.lists.top_files@.len() < before.top_n || e.size > before.min_top_size);
    assert(a =~= b);
    let offered = entries.filter(a);
    let taken = candidates(files, 0, full, min);
    if offered.len() > 0 {
        assert(taken.last() == taken[offered.len() - 1]);
    }
}

proof fn lemma_offered(
    dir: Seq<char>,
    entries: Seq<Entry>,
    options: ScanOptions,
    separator: char,
    files: Seq<SizeEntry>,
    full: bool,
    min: u64,
)
    requires
        views(files) == listed_files(dir, entries, options, separator),
    ensures
        ({
            let offered = entries.filter(
                |e: Entry|
                    e.kind == EntryKind::File && !excluded(options.exclude@, e.name@) && (!full
                        || e.size > min),
            );
            let taken = candidates(files, 0, full, min);
            &&& taken.len() == offered.len()
            &&& forall|i: int|
                0 <= i < taken.len() ==> (#[trigger] taken[i]).path@ == joined(
                    dir,
                    offered[i].name@,
                    separator,
                )
        }),
    decreases entries.len(),
{
    reveal(Seq::filter);
    let keep = |e: Entry|
        e.kind == EntryKind::File && !excluded(options.exclude@, e.name@) && (!full || e.size > min);
    assert(views(files).len() == files.len());
    if entries.len() > 0 {
        let rest = entries.drop_last();
        let e = entries.last();
        let before = listed_files(dir, rest, options, separator);
        if e.kind == EntryKind::File && !excluded(options.exclude@, e.name@) {
            let others = files.drop_last();
            assert(views(files).drop_last() =~= before);
            assert(views(others) =~= before);
            lemma_offered(dir, rest, options, separator, others, full, min);
            assert(views(files)[files.len() - 1] == (files.last().path@, files.last().size));
            assert(files.last().size == e.size);
            assert(files.last().path@ == joined(dir, e.name@, separator));
            let taken = candidates(files, 0, full, min);
            let offered = entries.filter(keep);
            assert forall|i: int| 0 <= i < taken.len() implies (#[trigger] taken[i]).path@ == joined(
                dir,
                offered[i].name@,
                separator,
            ) by {
                let fewer = candidates(others, 0, full, min);
                if i < fewer.len() {
                    assert(taken[i] == fewer[i]);
                    assert(offered[i] == rest.filter(keep)[i]);
                }
            }
        } else {
            lemma_offered(dir, rest, options, separator, files, full, min);
        }
    } else {
        assert(files =~= Seq::empty());
    }
}

/// The lists of directories are brought up to date by a listing that has bytes, unless they are
/// left out, when 500, 1000 and so on of these were taken in before it; every other listing
/// leaves them as they are. What was chosen for the scan stays in any case.
pub proof fn law_lists_are_renewed(
    before: Scan,
    after: Scan,
    dir: int,
    depth: int,
    entries: Seq<Entry>,
    subs: Seq<SubDir>,
)
    requires
        walked(before, after, dir, depth, entries, subs),
    ensures
        ({
            let bytes = sum_sizes(
                listed_files(
                    before.dirs.nodes@[dir].path@,
                    entries,
                    before.options,
                    before.separator,
                ),
            );
            let counts = !before.files_only && bytes > 0;
            &&& after.dirs_processed == (if counts {
                (before.dirs_processed + 1) % 0x1_0000_0000_0000_0000
            } else {
                before.dirs_processed as int
            })
            &&& counts && before.dirs_processed > 0 && before.dirs_processed % 500 == 0
                ==> shows_dirs(after.state.lists, after.dirs)
            &&& !counts || before.dirs_processed == 0 || before.dirs_processed % 500 != 0
                ==> after.state.lists.top_dirs == before.state.lists.top_dirs
                && after.state.lists.dir_files == before.state.lists.dir_files
            &&& counts ==> after.dirs.visits@ == before.dirs.visits@.push(Visit { dir, bytes })
            &&& !counts ==> after.dirs.visits@ == before.dirs.visits@
        }),
        after.top_n == before.top_n,
        after.files_only == before.files_only,
        after.options == before.options,
        after.separator == before.separator,
        after.home == before.home,
{
}

/// A file is put to the list of the largest just where the list is not full, the file is among
/// the first `free`, or it is larger than `min`.
pub proof fn law_who_is_put_forward(files: Seq<SizeEntry>, f: SizeEntry, free: nat, full: bool, min: u64)
    ensures
        candidates(files.push(f), free, full, min) == (if full && files.len() >= free && f.size <= min {
            candidates(files, free, full, min)
        } else {
            candidates(files, free, full, min).push(f)
        }),
        candidates(Seq::empty(), free, full, min).len() == 0,
{
    assert(files.push(f).drop_last() =~= files);
}

} // verus!
