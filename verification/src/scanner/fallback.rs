//! The bookkeeping of a walk that hands out one entry after the other: what it comes upon is
//! gathered in batches, and the lists are brought up to date batch by batch.

use vstd::multiset::Multiset;
use vstd::prelude::*;

use crate::dirs::{counted_dirs, total_bytes, DirTree, Visit};
use crate::paths::{shorten_path, shortened};
use crate::ranking::{insert_all, is_top, ranked, SizeEntry};
use crate::scanner::{
    candidates, knows_smallest, law_passing_over, law_who_is_put_forward, lemma_cut_length,
    lemma_top_of_itself, wrapped,
};
use crate::state::{forgets, Cut, ScanLists, ScanState};
use crate::text::text_of;

verus! {

/// A batch is done when it holds this many files or directories.
pub const BATCH_SIZE: u64 = 1024;

/// The list of directories is brought up to date after this many files.
pub const DIRS_EVERY: u64 = 10_000;

/// A walk in progress.
pub struct BatchScan {
    pub state: ScanState,
    pub dirs: DirTree,
    pub top_n: usize,
    pub files_only: bool,
    pub home: Option<String>,
    /// The files of the batch that may be among the largest.
    pub batch: Vec<SizeEntry>,
    pub batch_bytes: u64,
    pub batch_files: u64,
    pub batch_dirs: u64,
    pub batch_errors: u64,
    pub last_path: String,
    pub local_file_count: u64,
    pub last_dir_update: u64,
    /// The size of the smallest file listed when files were last listed.
    pub min_top_size: u64,
    /// Whether the list of files held as many as it may when files were last listed.
    pub list_was_full: bool,
    /// All files of the batch.
    pub seen: Ghost<Seq<SizeEntry>>,
}

/// What a walk comes upon.
pub enum WalkEvent {
    /// An entry that could not be examined.
    Failed,
    /// A file in the directory with the number `dir`.
    File { dir: usize, path: String, size: u64 },
    Dir,
    /// Neither a file nor a directory.
    Other,
    /// Nothing is left, or the walk was told to stop.
    Finished,
}

impl BatchScan {
    /// The lists are in order and no longer than allowed, the batch is not full, nothing that
    /// was found is neither counted nor in the batch, and the batch offers the files that it
    /// has to.
    pub open spec fn wf(&self) -> bool {
        &&& self.holds_together()
        &&& !self.is_due()
    }

    /// The batch is full.
    pub open spec fn is_due(&self) -> bool {
        self.batch_files >= BATCH_SIZE || self.batch_dirs >= BATCH_SIZE
    }

    /// All of the invariant but that the batch is not full.
    pub open spec fn holds_together(&self) -> bool {
        &&& self.state.lists.wf()
        &&& self.state.lists.top_files@.len() <= self.top_n
        &&& self.dirs.wf()
        &&& self.dirs.top_n == self.top_n
        &&& self.batch_files <= BATCH_SIZE
        &&& self.batch_dirs <= BATCH_SIZE
        &&& self.last_dir_update <= self.local_file_count
        &&& self.local_file_count == self.state.file_count + self.batch_files
        &&& self.seen@.len() == self.batch_files
        &&& self.batch@ == candidates(
            self.seen@,
            self.top_n as nat,
            self.list_was_full,
            self.min_top_size,
        )
        &&& self.state.lists.top_files@.len() == self.top_n ==> self.list_was_full
        &&& knows_smallest(
            self.state.lists.top_files@,
            self.top_n as nat,
            self.min_top_size,
        )
        &&& self.state.total_bytes + self.batch_bytes <= u64::MAX
        &&& !self.files_only ==> total_bytes(self.dirs.visits@) == self.state.total_bytes
            + self.batch_bytes
    }

    /// The walk knows the directory of `event`, and there is room to count what it brings.
    pub open spec fn can_take(&self, event: WalkEvent) -> bool {
        match event {
            WalkEvent::Failed => self.batch_errors < u64::MAX,
            WalkEvent::File { dir, path, size } => {
                &&& self.files_only || dir < self.dirs.nodes@.len()
                &&& self.state.total_bytes + self.batch_bytes + size <= u64::MAX
                &&& self.local_file_count < u64::MAX
            },
            _ => true,
        }
    }

    /// Whether the walk knows the directory of `event`, and there is room to count what it
    /// brings.
    pub fn accepts(&self, event: &WalkEvent) -> (r: bool)
        requires
            self.wf(),
        ensures
            r == self.can_take(*event),
    {
        match event {
            WalkEvent::Failed => self.batch_errors < u64::MAX,
            WalkEvent::File { dir, path: _, size } => {
                (self.files_only || *dir < self.dirs.nodes.len()) && self.state.total_bytes
                    + self.batch_bytes <= u64::MAX - *size && self.local_file_count < u64::MAX
            },
            _ => true,
        }
    }

    /// A walk that has come upon nothing yet, and knows no directories.
    pub fn new(top_n: usize, files_only: bool, separator: char, home: Option<String>) -> (r: Self)
        ensures
            r.wf(),
            r.dirs.nodes@.len() == 0,
            r.dirs.visits@.len() == 0,
            r.dirs.separator == separator,
            r.state.lists.top_files@.len() == 0,
            r.state.lists.top_dirs@.len() == 0,
            r.state.lists.dir_files@ == Map::<Seq<char>, Seq<SizeEntry>>::empty(),
            r.state.lists.current_path@.len() == 0,
            r.state.total_bytes == 0,
            r.state.file_count == 0,
            r.state.dir_count == 0,
            r.state.error_count == 0,
            !r.state.done,
            r.top_n == top_n,
            r.files_only == files_only,
            r.home == home,
            r.batch_bytes == 0,
            r.batch_files == 0,
            r.batch_dirs == 0,
            r.batch_errors == 0,
            r.local_file_count == 0,
            r.last_dir_update == 0,
            r.min_top_size == 0,
            r.list_was_full == (top_n == 0),
            walk_lists_largest(r, Multiset::empty()),
    {
        let r = BatchScan {
            state: ScanState::new(),
            dirs: DirTree::new(top_n, separator),
            top_n,
            files_only,
            home,
            batch: Vec::new(),
            batch_bytes: 0,
            batch_files: 0,
            batch_dirs: 0,
            batch_errors: 0,
            last_path: String::new(),
            local_file_count: 0,
            last_dir_update: 0,
            min_top_size: 0,
            list_was_full: top_n == 0,
            seen: Ghost(Seq::empty()),
        };
        proof {
            broadcast use vstd::seq_lib::group_to_multiset_ensures;
            assert(r.batch@ =~= candidates(Seq::empty(), top_n as nat, r.list_was_full, 0));
            assert(r.seen@.to_multiset() =~= Multiset::empty());
            assert(r.state.lists.top_files@.to_multiset() =~= Multiset::empty());
            assert(Multiset::<SizeEntry>::empty().sub(r.seen@.to_multiset()) =~= Multiset::empty());
        }
        r
    }

    /// Adds the directory `path`, held by `parent`, and returns its number.
    pub fn add_dir(&mut self, path: String, parent: Option<usize>) -> (r: usize)
        requires
            old(self).wf(),
            parent matches Some(p) ==> p < old(self).dirs.nodes@.len(),
        ensures
            final(self).wf(),
            *final(self) == (BatchScan { dirs: final(self).dirs, ..*old(self) }),
            r == old(self).dirs.nodes@.len(),
            final(self).dirs.nodes@.len() == r + 1,
            final(self).dirs.nodes@[r as int].path == path,
            final(self).dirs.nodes@[r as int].parent == parent,
            forall|i: int| 0 <= i < r ==> final(self).dirs.nodes@[i] == old(self).dirs.nodes@[i],
            final(self).dirs.visits == old(self).dirs.visits,
            final(self).dirs.found == old(self).dirs.found,
    {
        self.dirs.add_dir(path, parent)
    }
}

/// `after` is `before` with what `event` brings put into the batch.
pub open spec fn noted(before: BatchScan, after: BatchScan, event: WalkEvent) -> bool {
    match event {
        WalkEvent::Failed => after == (BatchScan {
            batch_errors: (before.batch_errors + 1) as u64,
            ..before
        }),
        WalkEvent::Dir => after == (BatchScan {
            batch_dirs: (before.batch_dirs + 1) as u64,
            ..before
        }),
        WalkEvent::File { dir, path, size } => {
            &&& after == (BatchScan {
                dirs: after.dirs,
                batch: after.batch,
                batch_bytes: (before.batch_bytes + size) as u64,
                batch_files: (before.batch_files + 1) as u64,
                last_path: path,
                local_file_count: (before.local_file_count + 1) as u64,
                seen: after.seen,
                ..before
            })
            &&& after.seen@ == before.seen@.push((SizeEntry { path, size }))
            &&& after.batch@ == candidates(
                after.seen@,
                before.top_n as nat,
                before.list_was_full,
                before.min_top_size,
            )
            &&& if before.files_only {
                after.dirs == before.dirs
            } else {
                &&& after.dirs.visits@ == before.dirs.visits@.push(
                    (Visit { dir: dir as int, bytes: size as nat }),
                )
                &&& after.dirs.found == before.dirs.found
                &&& after.dirs.separator == before.dirs.separator
                &&& after.dirs.parents() == before.dirs.parents()
                &&& after.dirs.paths() == before.dirs.paths()
                &&& forall|i: int|
                    0 <= i < before.dirs.nodes@.len() ==> (#[trigger] after.dirs.nodes@[i]).files
                        == before.dirs.nodes@[i].files
            }
        },
        WalkEvent::Other => after == before,
        WalkEvent::Finished => after == before,
    }
}

/// `after` is `before` with the counts of the batch added to those of the walk.
pub open spec fn counted_up(before: ScanState, after: ScanState, run: BatchScan) -> bool {
    &&& after.total_bytes == before.total_bytes + run.batch_bytes
    &&& after.file_count == before.file_count + run.batch_files
    &&& after.dir_count == wrapped(before.dir_count + run.batch_dirs)
    &&& after.error_count == wrapped(before.error_count + run.batch_errors)
}

/// The list of files after the batch was put to it.
pub open spec fn lists_batch(before: BatchScan, after: Seq<SizeEntry>) -> bool {
    let was = before.state.lists.top_files@;
    if before.batch@.len() == 0 {
        after == was
    } else {
        is_top(after, was.to_multiset().add(before.batch@.to_multiset()), before.top_n as nat)
    }
}

/// The size of the smallest file that `list`, the list after the batch was put to it, holds;
/// what was known before where the batch had nothing to put.
pub open spec fn smallest_listed(before: BatchScan, list: Seq<SizeEntry>) -> u64 {
    if before.batch@.len() == 0 {
        before.min_top_size
    } else if list.len() > 0 {
        list.last().size
    } else {
        0
    }
}

/// The list of directories is out of date.
pub open spec fn dirs_due(run: BatchScan) -> bool {
    !run.files_only && run.local_file_count - run.last_dir_update >= DIRS_EVERY
}

/// `after` is `before` with its batch taken in.
pub open spec fn flushed(before: BatchScan, after: BatchScan) -> bool {
    let was = before.state.lists;
    let is = after.state.lists;
    &&& after == (BatchScan {
        state: after.state,
        batch: after.batch,
        batch_bytes: 0,
        batch_files: 0,
        batch_dirs: 0,
        batch_errors: 0,
        last_dir_update: if dirs_due(before) {
            before.local_file_count
        } else {
            before.last_dir_update
        },
        min_top_size: smallest_listed(before, is.top_files@),
        list_was_full: is.top_files@.len() >= before.top_n,
        seen: after.seen,
        ..before
    })
    &&& after.batch@.len() == 0
    &&& after.seen@.len() == 0
    &&& counted_up(before.state, after.state, before)
    &&& after.state.done == before.state.done
    &&& lists_batch(before, is.top_files@)
    &&& is.current_path@ == (if before.batch@.len() == 0 {
        was.current_path@
    } else {
        shortened(before.last_path@, text_of(before.home))
    })
    &&& is.dir_files == was.dir_files
    &&& if dirs_due(before) {
        is_top(is.top_dirs@, counted_dirs(before.dirs.nodes@).to_multiset(), before.top_n as nat)
    } else {
        is.top_dirs == was.top_dirs
    }
}

/// `after` is `before` at its end, with its last batch taken in.
pub open spec fn finished(before: BatchScan, after: BatchScan) -> bool {
    let was = before.state.lists;
    let is = after.state.lists;
    &&& after == (BatchScan {
        state: after.state,
        batch: after.batch,
        batch_bytes: 0,
        batch_files: 0,
        batch_dirs: 0,
        batch_errors: 0,
        min_top_size: smallest_listed(before, is.top_files@),
        list_was_full: is.top_files@.len() >= before.top_n,
        seen: after.seen,
        ..before
    })
    &&& after.batch@.len() == 0
    &&& after.seen@.len() == 0
    &&& counted_up(before.state, after.state, before)
    &&& after.state.done
    &&& lists_batch(before, is.top_files@)
    &&& is.current_path == was.current_path
    &&& is.dir_files == was.dir_files
    &&& if before.files_only {
        is.top_dirs == was.top_dirs
    } else {
        is_top(is.top_dirs@, counted_dirs(before.dirs.nodes@).to_multiset(), before.top_n as nat)
    }
}

/// `after` is `before` with `event` taken in: noted, and where that filled the batch, with the
/// batch taken in too.
pub open spec fn stepped(before: BatchScan, after: BatchScan, event: WalkEvent) -> bool {
    if event is Finished {
        finished(before, after)
    } else {
        exists|noting: BatchScan| #[trigger]
            noted(before, noting, event) && if noting.is_due() {
                flushed(noting, after)
            } else {
                after == noting
            }
    }
}

/// Puts what `event` brings into the batch.
fn note(run: &mut BatchScan, event: &WalkEvent)
    requires
        old(run).wf(),
        old(run).can_take(*event),
    ensures
        final(run).holds_together(),
        noted(*old(run), *final(run), *event),
{
    match event {
        WalkEvent::Failed => {
            run.batch_errors = run.batch_errors + 1;
        },
        WalkEvent::File { dir, path, size } => {
            let ghost before = *run;
            run.batch_bytes = run.batch_bytes + *size;
            run.batch_files = run.batch_files + 1;
            run.local_file_count = run.local_file_count + 1;
            if !run.files_only {
                run.dirs.add_bytes(*dir, *size);
                assert(run.dirs.visits@.drop_last() =~= before.dirs.visits@);
            }
            let entry = SizeEntry { path: path.clone(), size: *size };
            proof {
                let seen = run.seen@.push(entry);
                assert(seen.drop_last() =~= run.seen@);
                run.seen@ = seen;
            }
            if run.batch_files <= run.top_n as u64 || !run.list_was_full || *size
                > run.min_top_size {
                run.batch.push(entry);
            }
            run.last_path = path.clone();
        },
        WalkEvent::Dir => {
            run.batch_dirs = run.batch_dirs + 1;
        },
        WalkEvent::Other => {},
        WalkEvent::Finished => {},
    }
}

/// Puts the batch to the list of the largest files.
fn list_batch(run: &mut BatchScan)
    requires
        ranked(old(run).state.lists.top_files@),
        old(run).state.lists.top_files@.len() <= old(run).top_n,
        old(run).batch@.len() > 0,
    ensures
        lists_batch(*old(run), final(run).state.lists.top_files@),
        *final(run) == (BatchScan {
            state: ScanState {
                lists: ScanLists {
                    top_files: final(run).state.lists.top_files,
                    ..old(run).state.lists
                },
                ..old(run).state
            },
            min_top_size: smallest_listed(*old(run), final(run).state.lists.top_files@),
            ..*old(run)
        }),
{
    insert_all(&mut run.state.lists.top_files, &run.batch, run.top_n);
    let len: usize = run.state.lists.top_files.len();
    run.min_top_size = if len > 0 {
        run.state.lists.top_files[len - 1].size
    } else {
        0
    };
}

/// Takes in the batch.
fn flush(run: &mut BatchScan)
    requires
        old(run).holds_together(),
    ensures
        final(run).wf(),
        flushed(*old(run), *final(run)),
{
    run.state.total_bytes = run.state.total_bytes + run.batch_bytes;
    run.state.file_count = run.state.file_count + run.batch_files;
    run.state.dir_count = run.state.dir_count.wrapping_add(run.batch_dirs);
    run.state.error_count = run.state.error_count.wrapping_add(run.batch_errors);
    if run.batch.len() > 0 {
        let home: Option<&str> = match &run.home {
            Some(h) => Some(h.as_str()),
            None => None,
        };
        let path: String = shorten_path(run.last_path.as_str(), home);
        run.state.lists.current_path = path;
        list_batch(run);
    }
    run.list_was_full = run.state.lists.top_files.len() >= run.top_n;
    run.batch = Vec::new();
    run.batch_bytes = 0;
    run.batch_files = 0;
    run.batch_dirs = 0;
    run.batch_errors = 0;
    proof {
        run.seen@ = Seq::empty();
        assert(run.batch@ =~= candidates(
            run.seen@,
            run.top_n as nat,
            run.list_was_full,
            run.min_top_size,
        ));
    }
    if !run.files_only && run.local_file_count - run.last_dir_update >= DIRS_EVERY {
        run.last_dir_update = run.local_file_count;
        run.state.lists.top_dirs = run.dirs.top_dirs();
    }
}

/// Takes in the last batch and ends the walk.
fn finish(run: &mut BatchScan)
    requires
        old(run).wf(),
    ensures
        final(run).wf(),
        finished(*old(run), *final(run)),
{
    run.state.total_bytes = run.state.total_bytes + run.batch_bytes;
    run.state.file_count = run.state.file_count + run.batch_files;
    run.state.dir_count = run.state.dir_count.wrapping_add(run.batch_dirs);
    run.state.error_count = run.state.error_count.wrapping_add(run.batch_errors);
    if run.batch.len() > 0 {
        list_batch(run);
    }
    run.list_was_full = run.state.lists.top_files.len() >= run.top_n;
    run.batch = Vec::new();
    run.batch_bytes = 0;
    run.batch_files = 0;
    run.batch_dirs = 0;
    run.batch_errors = 0;
    proof {
        run.seen@ = Seq::empty();
        assert(run.batch@ =~= candidates(
            run.seen@,
            run.top_n as nat,
            run.list_was_full,
            run.min_top_size,
        ));
    }
    if !run.files_only {
        run.state.lists.top_dirs = run.dirs.top_dirs();
    }
    run.state.done = true;
}

/// Takes in what a walk came upon.
pub fn scan(run: &mut BatchScan, event: &WalkEvent)
    requires
        old(run).wf(),
        old(run).can_take(*event),
    ensures
        final(run).wf(),
        stepped(*old(run), *final(run), *event),
{
    if let WalkEvent::Finished = event {
        finish(run);
        return;
    }
    let ghost before = *run;
    note(run, event);
    let ghost noting = *run;
    if run.batch_files >= BATCH_SIZE || run.batch_dirs >= BATCH_SIZE {
        flush(run);
    }
    assert(noted(before, noting, *event));
}

/// Batches lose nothing: at the end of a walk all files and bytes that it came upon are
/// counted.
pub proof fn law_batches_add_up(before: BatchScan, after: BatchScan)
    requires
        before.wf(),
        stepped(before, after, WalkEvent::Finished),
    ensures
        after.state.file_count == before.local_file_count,
        after.state.total_bytes == before.state.total_bytes + before.batch_bytes,
        !before.files_only ==> after.state.total_bytes == total_bytes(after.dirs.visits@),
{
}

/// The files listed are the largest of those of `all` that are not in the batch, and `all` are
/// as many as the walk came upon.
pub open spec fn walk_lists_largest(run: BatchScan, all: Multiset<SizeEntry>) -> bool {
    let waiting = run.seen@.to_multiset();
    let list = run.state.lists.top_files@;
    &&& waiting.subset_of(all)
    &&& is_top(list, all.sub(waiting), run.top_n as nat)
    &&& run.local_file_count == all.len()
    &&& run.list_was_full == (list.len() >= run.top_n)
}

/// The file that `event` brings, where it brings one.
pub open spec fn brought(event: WalkEvent) -> Multiset<SizeEntry> {
    match event {
        WalkEvent::File { dir, path, size } => Multiset::singleton(SizeEntry { path, size }),
        _ => Multiset::empty(),
    }
}

/// A walk lists the largest of all files that it came upon, but for those that wait in the
/// batch: each step keeps it so. At the end none waits.
pub proof fn law_walk_lists_largest(
    before: BatchScan,
    after: BatchScan,
    event: WalkEvent,
    all: Multiset<SizeEntry>,
)
    requires
        before.wf(),
        before.can_take(event),
        walk_lists_largest(before, all),
        stepped(before, after, event),
    ensures
        walk_lists_largest(after, all.add(brought(event))),
        event is Finished ==> is_top(after.state.lists.top_files@, all, after.top_n as nat),
{
    broadcast use vstd::seq_lib::group_to_multiset_ensures;
    broadcast use vstd::multiset::group_multiset_axioms;

    let everything = all.add(brought(event));
    if event is Finished {
        assert(everything =~= all);
        lemma_batch_listed(before, after.state.lists.top_files@, all);
        assert(after.seen@ =~= Seq::empty());
        assert(all.sub(after.seen@.to_multiset()) =~= all);
    } else {
        let noting = choose|noting: BatchScan| #[trigger]
            noted(before, noting, event) && if noting.is_due() {
                flushed(noting, after)
            } else {
                after == noting
            };
        assert(noted(before, noting, event));
        if event is File {
            assert(noting.seen@.to_multiset() =~= before.seen@.to_multiset().add(brought(event)));
        } else {
            assert(everything =~= all);
        }
        assert(everything.sub(noting.seen@.to_multiset()) =~= all.sub(before.seen@.to_multiset()));
        assert(noting.seen@.to_multiset().subset_of(everything));
        assert(walk_lists_largest(noting, everything));
        if noting.is_due() {
            lemma_batch_listed(noting, after.state.lists.top_files@, everything);
            assert(after.seen@ =~= Seq::empty());
            assert(everything.sub(after.seen@.to_multiset()) =~= everything);
        }
    }
}

/// A batch that is taken in loses no large file.
proof fn lemma_batch_listed(run: BatchScan, r: Seq<SizeEntry>, all: Multiset<SizeEntry>)
    requires
        run.batch@ == candidates(
            run.seen@,
            run.top_n as nat,
            run.list_was_full,
            run.min_top_size,
        ),
        knows_smallest(run.state.lists.top_files@, run.top_n as nat, run.min_top_size),
        walk_lists_largest(run, all),
        lists_batch(run, r),
    ensures
        is_top(r, all, run.top_n as nat),
{
    broadcast use vstd::seq_lib::group_to_multiset_ensures;
    broadcast use vstd::multiset::group_multiset_axioms;

    let list = run.state.lists.top_files@;
    let n = run.top_n as nat;
    let listed = all.sub(run.seen@.to_multiset());
    if run.batch@.len() == 0 {
        assert(run.batch@ =~= Seq::empty());
        assert(list.to_multiset().add(run.batch@.to_multiset()) =~= list.to_multiset());
        lemma_top_of_itself(list, listed, n);
    }
    law_passing_over(list, listed, run.seen@, n, run.min_top_size, r, n);
    assert(listed.add(run.seen@.to_multiset()) =~= all);
}

/// A deletion may come between two steps of a walk: the walk stays in order.
pub proof fn law_deletion_keeps_walk(run: BatchScan, lists: ScanLists, path: Seq<char>, is_dir: bool)
    requires
        run.wf(),
        lists.wf(),
        forgets(run.state.lists, lists, path, is_dir),
    ensures
        (BatchScan { state: ScanState { lists, ..run.state }, ..run }).wf(),
{
    lemma_cut_length(run.state.lists.top_files@, Cut::Below, path);
    lemma_cut_length(run.state.lists.top_files@, Cut::Path, path);
}

/// A walk counts all that it comes upon, once: each file with its bytes, each directory and each
/// failure adds one to what was counted before, in the lists or in the batch, and nothing else
/// does. The end, and only it, makes the walk done, and leaves nothing in the batch.
pub proof fn law_walk_counts(before: BatchScan, after: BatchScan, event: WalkEvent)
    requires
        before.wf(),
        before.can_take(event),
        stepped(before, after, event),
    ensures
        after.state.file_count + after.batch_files == before.state.file_count + before.batch_files
            + (if event is File {
            1int
        } else {
            0
        }),
        after.state.total_bytes + after.batch_bytes == before.state.total_bytes + before.batch_bytes
            + (match event {
            WalkEvent::File { dir, path, size } => size as int,
            _ => 0,
        }),
        (after.state.dir_count + after.batch_dirs) % 0x1_0000_0000_0000_0000 == (
        before.state.dir_count + before.batch_dirs + (if event is Dir {
            1int
        } else {
            0
        })) % 0x1_0000_0000_0000_0000,
        (after.state.error_count + after.batch_errors) % 0x1_0000_0000_0000_0000 == (
        before.state.error_count + before.batch_errors + (if event is Failed {
            1int
        } else {
            0
        })) % 0x1_0000_0000_0000_0000,
        after.local_file_count == after.state.file_count + after.batch_files,
        after.state.done == (before.state.done || event is Finished),
        event is Finished ==> after.batch_files == 0 && after.batch_bytes == 0 && after.batch_dirs == 0
            && after.batch_errors == 0 && after.batch@.len() == 0,
        after.top_n == before.top_n && after.files_only == before.files_only && after.home
            == before.home,
{
    if !(event is Finished) {
        let noting = choose|noting: BatchScan| #[trigger]
            noted(before, noting, event) && if noting.is_due() {
                flushed(noting, after)
            } else {
                after == noting
            };
        assert(noted(before, noting, event));
    }
}

/// Every file adds its bytes to its directory, and with it to those that hold it, unless the
/// directories are left out; nothing else changes the directories.
pub proof fn law_walk_fills_dirs(before: BatchScan, after: BatchScan, event: WalkEvent)
    requires
        before.wf(),
        before.can_take(event),
        stepped(before, after, event),
    ensures
        before.files_only || !(event is File) ==> after.dirs == before.dirs,
        !before.files_only ==> (event matches WalkEvent::File { dir, path, size } ==> {
            &&& after.dirs.visits@ == before.dirs.visits@.push(
                Visit { dir: dir as int, bytes: size as nat },
            )
            &&& after.dirs.paths() == before.dirs.paths()
            &&& after.dirs.parents() == before.dirs.parents()
        }),
{
    if !(event is Finished) {
        let noting = choose|noting: BatchScan| #[trigger]
            noted(before, noting, event) && if noting.is_due() {
                flushed(noting, after)
            } else {
                after == noting
            };
        assert(noted(before, noting, event));
    }
}

/// The lists are brought up to date when 1024 files or directories are in the batch, and at the
/// end, and not otherwise. A batch that offers files shows the path of its last file then. The
/// directories take part at the end and where 10000 files or more were found since they last did,
/// unless they are left out.
pub proof fn law_walk_in_batches(before: BatchScan, after: BatchScan, event: WalkEvent)
    requires
        before.wf(),
        before.can_take(event),
        stepped(before, after, event),
    ensures
        ({
            let files = before.batch_files + (if event is File {
                1int
            } else {
                0
            });
            let dirs = before.batch_dirs + (if event is Dir {
                1int
            } else {
                0
            });
            let full = files >= 1024 || dirs >= 1024;
            let new_files = before.local_file_count - before.last_dir_update + (if event is File {
                1int
            } else {
                0
            });
            let renews = !before.files_only && (event is Finished || (full && new_files >= 10_000));
            &&& !(event is Finished) && !full ==> after.state == before.state
            &&& !(event is Finished) && full ==> after.batch_files == 0 && after.batch_dirs == 0
                && after.batch_bytes == 0 && after.batch_errors == 0 && after.batch@.len() == 0
            &&& renews ==> is_top(
                after.state.lists.top_dirs@,
                counted_dirs(after.dirs.nodes@).to_multiset(),
                after.top_n as nat,
            )
            &&& !renews ==> after.state.lists.top_dirs == before.state.lists.top_dirs
            &&& after.state.lists.dir_files == before.state.lists.dir_files
            &&& event is Finished ==> after.state.lists.current_path
                == before.state.lists.current_path
            &&& after.state.lists.current_path@ == before.state.lists.current_path@
                || after.state.lists.current_path@ == shortened(
                (match event {
                    WalkEvent::File { dir, path, size } => path,
                    _ => before.last_path,
                })@,
                text_of(before.home),
            )
            &&& event matches WalkEvent::File { dir, path, size } ==> (files >= 1024 && (
            !before.list_was_full || size > before.min_top_size)
                ==> after.state.lists.current_path@ == shortened(path@, text_of(before.home)))
            &&& event matches WalkEvent::File { dir, path, size } ==> after.last_path == path
            &&& !(event is File) ==> after.last_path == before.last_path
        }),
{
    if !(event is Finished) {
        let noting = choose|noting: BatchScan| #[trigger]
            noted(before, noting, event) && if noting.is_due() {
                flushed(noting, after)
            } else {
                after == noting
            };
        assert(noted(before, noting, event));
        if event is File {
            law_who_is_put_forward(
                before.seen@,
                noting.seen@.last(),
                before.top_n as nat,
                before.list_was_full,
                before.min_top_size,
            );
        }
    }
}

/// What a walk can take: a file in a directory that it knows, if it asks for one, and whatever
/// leaves its counters below their limits.
pub proof fn law_walk_takes(run: BatchScan, event: WalkEvent)
    ensures
        event is Dir || event is Other || event is Finished ==> run.can_take(event),
        event is Failed ==> run.can_take(event) == (run.batch_errors < 0xffff_ffff_ffff_ffffu64),
        event matches WalkEvent::File { dir, path, size } ==> run.can_take(event) == ((
        run.files_only || dir < run.dirs.nodes@.len()) && run.state.total_bytes + run.batch_bytes
            + size <= 0xffff_ffff_ffff_ffffu64 && run.local_file_count < 0xffff_ffff_ffff_ffffu64),
{
}

} // verus!
