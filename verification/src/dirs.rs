//! The directories of a scan: what each takes with everything below it, and its largest files.

use vstd::multiset::Multiset;
use vstd::prelude::*;

use crate::ranking::{
    insert_all, insert_top_n, is_slot, is_top, keep_largest, law_insert_keeps_top, law_top_of_tops,
    lemma_all_taken, ranked, takes_entry, with_entry, SizeEntry,
};
use crate::text::{chars_of, starts_with, string_of};

verus! {

/// A directory. A `counted` one is among the directories that bytes were added to.
pub struct DirNode {
    pub path: String,
    pub parent: Option<usize>,
    pub counted: bool,
    pub size: u64,
    pub files: Vec<SizeEntry>,
}

/// Bytes that were found directly in a directory.
pub struct Visit {
    pub dir: int,
    pub bytes: nat,
}

/// A file that was found directly in a directory.
pub struct Found {
    pub dir: int,
    pub entry: SizeEntry,
}

/// `above` is `dir` or one of the directories that hold it.
pub open spec fn is_within(parents: Seq<Option<usize>>, dir: int, above: int) -> bool
    decreases dir,
{
    if dir == above {
        true
    } else if 0 <= dir < parents.len() && parents[dir] is Some && parents[dir]->0 < dir {
        is_within(parents, parents[dir]->0 as int, above)
    } else {
        false
    }
}

/// The bytes found in `above` and in all directories below it.
pub open spec fn bytes_within(parents: Seq<Option<usize>>, visits: Seq<Visit>, above: int) -> nat
    decreases visits.len(),
{
    if visits.len() == 0 {
        0
    } else {
        let last = visits.last();
        bytes_within(parents, visits.drop_last(), above) + (if is_within(parents, last.dir, above) {
            last.bytes
        } else {
            0
        })
    }
}

/// Bytes, if only none, were added to `above` or to a directory below it.
pub open spec fn visited_within(parents: Seq<Option<usize>>, visits: Seq<Visit>, above: int) -> bool {
    exists|j: int| 0 <= j < visits.len() && is_within(parents, (#[trigger] visits[j]).dir, above)
}

/// All bytes found.
pub open spec fn total_bytes(visits: Seq<Visit>) -> nat
    decreases visits.len(),
{
    if visits.len() == 0 {
        0
    } else {
        total_bytes(visits.drop_last()) + visits.last().bytes
    }
}

/// The files found in the directories that `which` picks.
pub open spec fn found_where(found: Seq<Found>, which: spec_fn(int) -> bool) -> Multiset<SizeEntry>
    decreases found.len(),
{
    if found.len() == 0 {
        Multiset::empty()
    } else if which(found.last().dir) {
        found_where(found.drop_last(), which).insert(found.last().entry)
    } else {
        found_where(found.drop_last(), which)
    }
}

/// The files found in the directory `dir`.
pub open spec fn found_in(found: Seq<Found>, dir: int) -> Multiset<SizeEntry> {
    found_where(found, only(dir))
}

/// Picks the directory `dir`.
pub open spec fn only(dir: int) -> spec_fn(int) -> bool {
    |d: int| d == dir
}

/// Picks the directories whose paths belong to `dir`.
pub open spec fn belonging(paths: Seq<Seq<char>>, dir: Seq<char>, separator: char) -> spec_fn(
    int,
) -> bool {
    |d: int| 0 <= d < paths.len() && belongs_to(paths[d], dir, separator)
}

/// `s` without separators at its end.
pub open spec fn without_end(s: Seq<char>, separator: char) -> Seq<char>
    decreases s.len(),
{
    if s.len() > 0 && s.last() == separator {
        without_end(s.drop_last(), separator)
    } else {
        s
    }
}

/// `path` is the directory `dir` or lies below it, by the way they are written.
pub open spec fn belongs_to(path: Seq<char>, dir: Seq<char>, separator: char) -> bool {
    path == dir || without_end(dir, separator).push(separator).is_prefix_of(path)
}

/// The counted directories with their sizes.
pub open spec fn counted_dirs(nodes: Seq<DirNode>) -> Seq<SizeEntry>
    decreases nodes.len(),
{
    if nodes.len() == 0 {
        Seq::empty()
    } else if nodes.last().counted {
        counted_dirs(nodes.drop_last()).push(
            SizeEntry { path: nodes.last().path, size: nodes.last().size },
        )
    } else {
        counted_dirs(nodes.drop_last())
    }
}

/// The directories seen so far, each but the first ones behind the one that holds it.
pub struct DirTree {
    pub nodes: Vec<DirNode>,
    pub top_n: usize,
    /// What stands between the names of a path.
    pub separator: char,
    /// The bytes that were added, in order.
    pub visits: Ghost<Seq<Visit>>,
    /// The files that were listed, in order.
    pub found: Ghost<Seq<Found>>,
}

proof fn lemma_within_order(parents: Seq<Option<usize>>, dir: int, above: int)
    ensures
        is_within(parents, dir, above) ==> above <= dir,
    decreases dir,
{
    if dir != above && 0 <= dir < parents.len() && parents[dir] is Some && parents[dir]->0 < dir {
        lemma_within_order(parents, parents[dir]->0 as int, above);
    }
}

/// New directories change nothing above the old ones.
proof fn lemma_within_push(parents: Seq<Option<usize>>, p: Option<usize>, dir: int, above: int)
    requires
        dir < parents.len(),
    ensures
        is_within(parents.push(p), dir, above) == is_within(parents, dir, above),
    decreases dir,
{
    if dir != above && 0 <= dir && parents[dir] is Some && parents[dir]->0 < dir {
        lemma_within_push(parents, p, parents[dir]->0 as int, above);
    }
}

proof fn lemma_bytes_push(parents: Seq<Option<usize>>, p: Option<usize>, visits: Seq<Visit>, above: int)
    requires
        forall|j: int| 0 <= j < visits.len() ==> (#[trigger] visits[j]).dir < parents.len(),
    ensures
        bytes_within(parents.push(p), visits, above) == bytes_within(parents, visits, above),
        visited_within(parents.push(p), visits, above) == visited_within(parents, visits, above),
        above >= parents.len() ==> bytes_within(parents, visits, above) == 0 && !visited_within(
            parents,
            visits,
            above,
        ),
    decreases visits.len(),
{
    assert forall|j: int| 0 <= j < visits.len() implies is_within(
        parents.push(p),
        (#[trigger] visits[j]).dir,
        above,
    ) == is_within(parents, visits[j].dir, above) by {
        lemma_within_push(parents, p, visits[j].dir, above);
    }
    if visited_within(parents, visits, above) {
        let j = choose|j: int|
            0 <= j < visits.len() && is_within(parents, (#[trigger] visits[j]).dir, above);
        lemma_within_order(parents, visits[j].dir, above);
        assert(is_within(parents.push(p), visits[j].dir, above));
    }
    if visits.len() > 0 {
        let rest = visits.drop_last();
        assert forall|j: int| 0 <= j < rest.len() implies (#[trigger] rest[j]).dir < parents.len() by {
            assert(rest[j] == visits[j]);
        }
        lemma_bytes_push(parents, p, rest, above);
        let last = visits.last();
        assert(last == visits[visits.len() - 1]);
        lemma_within_order(parents, last.dir, above);
    }
}

proof fn lemma_within_total(parents: Seq<Option<usize>>, visits: Seq<Visit>, above: int)
    ensures
        bytes_within(parents, visits, above) <= total_bytes(visits),
    decreases visits.len(),
{
    if visits.len() > 0 {
        lemma_within_total(parents, visits.drop_last(), above);
    }
}

proof fn lemma_found_nowhere(found: Seq<Found>, which: spec_fn(int) -> bool)
    requires
        forall|j: int| 0 <= j < found.len() ==> !which((#[trigger] found[j]).dir),
    ensures
        found_where(found, which) == Multiset::<SizeEntry>::empty(),
    decreases found.len(),
{
    if found.len() > 0 {
        let rest = found.drop_last();
        assert forall|j: int| 0 <= j < rest.len() implies !which((#[trigger] rest[j]).dir) by {
            assert(rest[j] == found[j]);
        }
        assert(!which(found[found.len() - 1].dir));
        lemma_found_nowhere(rest, which);
    }
}

/// One more directory adds the files found in it.
proof fn lemma_found_one_more(
    found: Seq<Found>,
    which: spec_fn(int) -> bool,
    dir: int,
    wider: spec_fn(int) -> bool,
)
    requires
        !which(dir),
        forall|d: int| wider(d) == (#[trigger] which(d) || d == dir),
    ensures
        found_where(found, wider) == found_where(found, which).add(found_in(found, dir)),
    decreases found.len(),
{
    if found.len() == 0 {
        assert(found_where(found, wider) =~= found_where(found, which).add(found_in(found, dir)));
    } else {
        lemma_found_one_more(found.drop_last(), which, dir, wider);
        let d = found.last().dir;
        assert(wider(d) == (which(d) || d == dir));
        assert(found_where(found, wider) =~= found_where(found, which).add(found_in(found, dir)));
    }
}

/// Picks that agree on the directories of all files find the same.
pub proof fn lemma_found_same(found: Seq<Found>, a: spec_fn(int) -> bool, b: spec_fn(int) -> bool)
    requires
        forall|j: int| 0 <= j < found.len() ==> a((#[trigger] found[j]).dir) == b(found[j].dir),
    ensures
        found_where(found, a) == found_where(found, b),
    decreases found.len(),
{
    if found.len() > 0 {
        let rest = found.drop_last();
        assert forall|j: int| 0 <= j < rest.len() implies a((#[trigger] rest[j]).dir) == b(
            rest[j].dir,
        ) by {
            assert(rest[j] == found[j]);
        }
        assert(a(found[found.len() - 1].dir) == b(found[found.len() - 1].dir));
        lemma_found_same(rest, a, b);
    }
}

impl DirTree {
    /// The directories that hold the others.
    pub open spec fn parents(&self) -> Seq<Option<usize>> {
        Seq::new(self.nodes@.len(), |i: int| self.nodes@[i].parent)
    }

    /// Every directory stands behind the one that holds it, its size is the sum of the bytes
    /// added to it and below it, and its files are the largest of those listed for it.
    #[verifier::opaque]
    pub open spec fn wf(&self) -> bool {
        &&& forall|i: int|
            0 <= i < self.nodes@.len() && (#[trigger] self.nodes@[i]).parent is Some
                ==> self.nodes@[i].parent->0 < i
        &&& forall|j: int|
            0 <= j < self.visits@.len() ==> 0 <= (#[trigger] self.visits@[j]).dir < self.nodes@.len()
        &&& forall|j: int|
            0 <= j < self.found@.len() ==> 0 <= (#[trigger] self.found@[j]).dir < self.nodes@.len()
        &&& forall|i: int|
            0 <= i < self.nodes@.len() ==> (#[trigger] self.nodes@[i]).size == bytes_within(
                self.parents(),
                self.visits@,
                i,
            )
        &&& forall|i: int|
            0 <= i < self.nodes@.len() ==> (#[trigger] self.nodes@[i]).counted == visited_within(
                self.parents(),
                self.visits@,
                i,
            )
        &&& forall|i: int|
            0 <= i < self.nodes@.len() ==> is_top(
                (#[trigger] self.nodes@[i]).files@,
                found_in(self.found@, i),
                self.top_n as nat,
            )
    }

    /// The paths of the directories.
    pub open spec fn paths(&self) -> Seq<Seq<char>> {
        Seq::new(self.nodes@.len(), |i: int| self.nodes@[i].path@)
    }

    /// The files listed for the directories that belong to `dir`.
    pub open spec fn found_below(&self, dir: Seq<char>) -> Multiset<SizeEntry> {
        found_where(self.found@, belonging(self.paths(), dir, self.separator))
    }

    /// No directories yet; of the files and of the directories the `top_n` largest count.
    pub fn new(top_n: usize, separator: char) -> (r: Self)
        ensures
            r.wf(),
            r.nodes@.len() == 0,
            r.top_n == top_n,
            r.separator == separator,
            r.visits@.len() == 0,
            r.found@.len() == 0,
    {
        proof {
            reveal(DirTree::wf);
        }
        DirTree {
            nodes: Vec::new(),
            top_n,
            separator,
            visits: Ghost(Seq::empty()),
            found: Ghost(Seq::empty()),
        }
    }

    /// Adds the directory `path`, held by `parent`, and returns its number.
    pub fn add_dir(&mut self, path: String, parent: Option<usize>) -> (r: usize)
        requires
            old(self).wf(),
            parent matches Some(p) ==> p < old(self).nodes@.len(),
        ensures
            final(self).wf(),
            r == old(self).nodes@.len(),
            final(self).nodes@.len() == r + 1,
            final(self).nodes@[r as int].path == path,
            final(self).nodes@[r as int].parent == parent,
            forall|i: int| 0 <= i < r ==> final(self).nodes@[i] == old(self).nodes@[i],
            final(self).top_n == old(self).top_n,
            final(self).separator == old(self).separator,
            final(self).visits == old(self).visits,
            final(self).found == old(self).found,
    {
        proof {
            reveal(DirTree::wf);
        }
        let r: usize = self.nodes.len();
        let ghost before = self.parents();
        self.nodes.push(
            DirNode { path, parent, counted: false, size: 0, files: Vec::new() },
        );
        proof {
            assert(self.parents() =~= before.push(parent));
            assert forall|i: int| 0 <= i < self.nodes@.len() implies bytes_within(
                self.parents(),
                self.visits@,
                i,
            ) == bytes_within(before, self.visits@, i) && visited_within(
                self.parents(),
                self.visits@,
                i,
            ) == visited_within(before, self.visits@, i) by {
                lemma_bytes_push(before, parent, self.visits@, i);
            }
            lemma_bytes_push(before, parent, self.visits@, r as int);
            lemma_found_nowhere(self.found@, only(r as int));
            let files = self.nodes@[r as int].files@;
            assert(files.to_multiset() =~= Multiset::empty()) by {
                broadcast use vstd::seq_lib::group_to_multiset_ensures;
            }
            assert(is_top(files, found_in(self.found@, r as int), self.top_n as nat));
        }
        r
    }

    /// Adds `bytes` to `dir` and to every directory above it.
    pub fn add_bytes(&mut self, dir: usize, bytes: u64)
        requires
            old(self).wf(),
            dir < old(self).nodes@.len(),
            total_bytes(old(self).visits@) + bytes <= u64::MAX,
        ensures
            final(self).wf(),
            final(self).visits@ == old(self).visits@.push(
                (Visit { dir: dir as int, bytes: bytes as nat }),
            ),
            final(self).found == old(self).found,
            final(self).top_n == old(self).top_n,
            final(self).separator == old(self).separator,
            final(self).parents() == old(self).parents(),
            final(self).paths() == old(self).paths(),
            forall|i: int|
                0 <= i < old(self).nodes@.len() ==> (#[trigger] final(self).nodes@[i]).files
                    == old(self).nodes@[i].files,
            forall|i: int|
                0 <= i < old(self).nodes@.len() ==> (#[trigger] final(self).nodes@[i]).size
                    == old(self).nodes@[i].size + (if is_within(
                    old(self).parents(),
                    dir as int,
                    i,
                ) {
                    bytes as int
                } else {
                    0
                }),
            forall|i: int|
                0 <= i < old(self).nodes@.len() ==> (#[trigger] final(self).nodes@[i]).counted == (
                old(self).nodes@[i].counted || is_within(old(self).parents(), dir as int, i)),
    {
        proof {
            reveal(DirTree::wf);
        }
        let ghost before = *self;
        let ghost parents = self.parents();
        let mut at: usize = dir;
        let mut more: bool = true;
        assert forall|a: int| a > dir implies !is_within(parents, dir as int, a) by {
            lemma_within_order(parents, dir as int, a);
        }
        while more
            invariant
                before.wf(),
                before == *old(self),
                parents == before.parents(),
                dir < before.nodes@.len(),
                at <= dir,
                total_bytes(before.visits@) + bytes <= u64::MAX,
                self.top_n == before.top_n,
                self.separator == before.separator,
                self.visits == before.visits,
                self.found == before.found,
                self.nodes@.len() == before.nodes@.len(),
                more ==> is_within(parents, dir as int, at as int),
                more ==> forall|a: int|
                    a <= at ==> is_within(parents, dir as int, a) == is_within(parents, at as int, a),
                !more ==> forall|a: int| a < at ==> !is_within(parents, dir as int, a),
                forall|i: int|
                    0 <= i < self.nodes@.len() ==> {
                        let done = is_within(parents, dir as int, i) && (i > at || (!more && i == at));
                        &&& (#[trigger] self.nodes@[i]).path == before.nodes@[i].path
                        &&& self.nodes@[i].parent == before.nodes@[i].parent
                        &&& self.nodes@[i].files == before.nodes@[i].files
                        &&& self.nodes@[i].counted == (before.nodes@[i].counted || done)
                        &&& self.nodes@[i].size == before.nodes@[i].size + (if done {
                            bytes as int
                        } else {
                            0
                        })
                    },
            decreases at + (if more { 1int } else { 0 }),
        {
            proof {
                reveal(DirTree::wf);
                lemma_within_total(parents, before.visits@, at as int);
                assert(self.nodes@[at as int].size == before.nodes@[at as int].size);
            }
            let ghost was = self.nodes@;
            let size: u64 = self.nodes[at].size + bytes;
            self.nodes[at].size = size;
            self.nodes[at].counted = true;
            let ghost node = before.nodes@[at as int];
            let ghost was_at = at as int;
            assert forall|i: int| 0 <= i < self.nodes@.len() && i != at implies self.nodes@[i] == was[i] by {}
            match self.nodes[at].parent {
                Some(p) => {
                    proof {
                        assert(node.parent == Some(p));
                        assert(parents[at as int] == Some(p));
                        assert forall|a: int| p < a < at implies !is_within(parents, dir as int, a) by {
                            lemma_within_order(parents, p as int, a);
                        }
                        assert forall|a: int| a <= p implies is_within(parents, dir as int, a)
                            == is_within(parents, p as int, a) by {
                            assert(is_within(parents, dir as int, a) == is_within(
                                parents,
                                at as int,
                                a,
                            ));
                        }
                    }
                    at = p;
                },
                None => {
                    assert forall|a: int| a < at implies !is_within(parents, dir as int, a) by {
                        assert(parents[at as int] is None);
                    }
                    more = false;
                },
            }
        }
        proof {
            assert(self.parents() =~= parents);
            assert(self.paths() =~= before.paths());
            let visit = Visit { dir: dir as int, bytes: bytes as nat };
            let visits = before.visits@.push(visit);
            assert(visits.drop_last() =~= before.visits@);
            assert forall|i: int| 0 <= i < self.nodes@.len() implies (#[trigger] self.nodes@[i]).size
                == bytes_within(parents, visits, i) && self.nodes@[i].counted == visited_within(
                parents,
                visits,
                i,
            ) by {
                assert(before.nodes@[i].size == bytes_within(parents, before.visits@, i));
                assert(before.nodes@[i].counted == visited_within(parents, before.visits@, i));
                if before.nodes@[i].counted {
                    let j = choose|j: int|
                        0 <= j < before.visits@.len() && is_within(
                            parents,
                            (#[trigger] before.visits@[j]).dir,
                            i,
                        );
                    assert(visits[j] == before.visits@[j]);
                }
                if is_within(parents, dir as int, i) {
                    assert(visits[visits.len() - 1].dir == dir);
                }
                if visited_within(parents, visits, i) && !is_within(parents, dir as int, i) {
                    let j = choose|j: int|
                        0 <= j < visits.len() && is_within(parents, (#[trigger] visits[j]).dir, i);
                    assert(visits[j] == before.visits@[j]);
                }
            }
            self.visits@ = visits;
        }
    }

    /// Lists the file `entry` for `dir`.
    pub fn insert_dir_file(&mut self, dir: usize, entry: SizeEntry)
        requires
            old(self).wf(),
            dir < old(self).nodes@.len(),
        ensures
            final(self).wf(),
            final(self).found@ == old(self).found@.push((Found { dir: dir as int, entry })),
            final(self).visits == old(self).visits,
            final(self).top_n == old(self).top_n,
            final(self).separator == old(self).separator,
            final(self).parents() == old(self).parents(),
            final(self).paths() == old(self).paths(),
            counted_dirs(final(self).nodes@) == counted_dirs(old(self).nodes@),
            takes_entry(
                old(self).nodes@[dir as int].files@,
                final(self).nodes@[dir as int].files@,
                entry,
                old(self).top_n as nat,
            ),
            final(self).nodes@ == old(self).nodes@.update(
                dir as int,
                (DirNode {
                    files: final(self).nodes@[dir as int].files,
                    ..old(self).nodes@[dir as int]
                }),
            ),
    {
        proof {
            reveal(DirTree::wf);
        }
        let ghost before = *self;
        let n: usize = self.top_n;
        let ghost was = self.nodes@[dir as int].files@;
        insert_top_n(&mut self.nodes[dir].files, entry, n);
        proof {
            let files = self.nodes@[dir as int].files@;
            let pos = choose|pos: int|
                #![trigger is_slot(was, entry.size, pos)]
                is_slot(was, entry.size, pos) && files == with_entry(was, entry, pos, n as nat);
            law_insert_keeps_top(was, found_in(before.found@, dir as int), entry, pos, n as nat);
            let one = Found { dir: dir as int, entry };
            let found = before.found@.push(one);
            assert(found.drop_last() =~= before.found@);
            self.found@ = found;
            assert(self.parents() =~= before.parents());
            assert(self.paths() =~= before.paths());
            assert forall|i: int| 0 <= i < self.nodes@.len() implies is_top(
                (#[trigger] self.nodes@[i]).files@,
                found_in(self.found@, i),
                self.top_n as nat,
            ) by {
                if i != dir {
                    assert(self.nodes@[i] == before.nodes@[i]);
                    assert(found_in(found, i) == found_in(before.found@, i));
                }
            }
            assert forall|i: int| 0 <= i < self.nodes@.len() implies (#[trigger] self.nodes@[i]).path
                == before.nodes@[i].path && self.nodes@[i].counted == before.nodes@[i].counted
                && self.nodes@[i].size == before.nodes@[i].size by {
                if i != dir {
                    assert(self.nodes@[i] == before.nodes@[i]);
                }
            }
            lemma_counted_same(self.nodes@, before.nodes@);
        }
    }

    /// The largest of the counted directories.
    pub fn top_dirs(&self) -> (r: Vec<SizeEntry>)
        ensures
            is_top(r@, counted_dirs(self.nodes@).to_multiset(), self.top_n as nat),
    {
        let mut all: Vec<SizeEntry> = Vec::new();
        let mut i: usize = 0;
        while i < self.nodes.len()
            invariant
                i <= self.nodes@.len(),
                all@ == counted_dirs(self.nodes@.take(i as int)),
            decreases self.nodes@.len() - i,
        {
            assert(self.nodes@.take(i + 1).drop_last() =~= self.nodes@.take(i as int));
            let node: &DirNode = &self.nodes[i];
            if node.counted {
                all.push(SizeEntry { path: node.path.clone(), size: node.size });
            }
            i += 1;
        }
        assert(self.nodes@.take(self.nodes@.len() as int) =~= self.nodes@);
        keep_largest(all, self.top_n)
    }

    /// The largest of the files that were listed for `dir` and for the directories below it.
    pub fn files_below(&self, dir: &String) -> (r: Vec<SizeEntry>)
        requires
            self.wf(),
        ensures
            is_top(r@, self.found_below(dir@), self.top_n as nat),
    {
        proof {
            reveal(DirTree::wf);
        }
        let prefix: String = prefix_below(dir.as_str(), self.separator);
        let mut merged: Vec<SizeEntry> = Vec::new();
        let mut i: usize = 0;
        let ghost pick = belonging(self.paths(), dir@, self.separator);
        proof {
            broadcast use vstd::seq_lib::group_to_multiset_ensures;
            let none = first_of(pick, 0);
            assert forall|j: int| 0 <= j < self.found@.len() implies !none((#[trigger] self.found@[j]).dir) by {}
            lemma_found_nowhere(self.found@, none);
            assert(merged@.to_multiset() =~= Multiset::empty());
        }
        while i < self.nodes.len()
            invariant
                self.wf(),
                i <= self.nodes@.len(),
                prefix@ == without_end(dir@, self.separator).push(self.separator),
                pick == belonging(self.paths(), dir@, self.separator),
                is_top(
                    merged@,
                    found_where(self.found@, first_of(pick, i as int)),
                    self.top_n as nat,
                ),
            decreases self.nodes@.len() - i,
        {
            let node: &DirNode = &self.nodes[i];
            let ghost here = first_of(pick, i as int);
            let ghost next = first_of(pick, i + 1);
            assert(self.paths()[i as int] == node.path@);
            if node.path == *dir || starts_with(node.path.as_str(), prefix.as_str()) {
                let ghost was = merged@;
                insert_all(&mut merged, &node.files, self.top_n);
                proof {
                    reveal(DirTree::wf);
                    assert(pick(i as int));
                    lemma_found_one_more(self.found@, here, i as int, next);
                    let mine = found_in(self.found@, i as int);
                    let theirs = found_where(self.found@, here);
                    law_top_of_tops(
                        was,
                        theirs,
                        node.files@.to_multiset(),
                        merged@,
                        self.top_n as nat,
                    );
                    assert(theirs.add(node.files@.to_multiset()) =~= node.files@.to_multiset().add(
                        theirs,
                    ));
                    law_top_of_tops(node.files@, mine, theirs, merged@, self.top_n as nat);
                    assert(mine.add(theirs) =~= theirs.add(mine));
                }
            } else {
                proof {
                    assert(!pick(i as int));
                    assert forall|j: int| 0 <= j < self.found@.len() implies here(
                        (#[trigger] self.found@[j]).dir,
                    ) == next(self.found@[j].dir) by {}
                    lemma_found_same(self.found@, here, next);
                }
            }
            i += 1;
        }
        proof {
            let every = first_of(pick, self.nodes@.len() as int);
            assert forall|j: int| 0 <= j < self.found@.len() implies every(
                (#[trigger] self.found@[j]).dir,
            ) == pick(self.found@[j].dir) by {}
            lemma_found_same(self.found@, every, pick);
        }
        merged
    }
}

/// Picks those of the first `n` directories that `pick` picks.
spec fn first_of(pick: spec_fn(int) -> bool, n: int) -> spec_fn(int) -> bool {
    |d: int| 0 <= d < n && pick(d)
}

proof fn lemma_counted_same(a: Seq<DirNode>, b: Seq<DirNode>)
    requires
        a.len() == b.len(),
        forall|i: int|
            0 <= i < a.len() ==> (#[trigger] a[i]).path == b[i].path && a[i].counted == b[i].counted
                && a[i].size == b[i].size,
    ensures
        counted_dirs(a) == counted_dirs(b),
    decreases a.len(),
{
    if a.len() > 0 {
        let last = a[a.len() - 1];
        assert(last.path == b[b.len() - 1].path);
        lemma_counted_same(a.drop_last(), b.drop_last());
    }
}

/// `dir` without separators at its end, and one separator.
fn prefix_below(dir: &str, separator: char) -> (r: String)
    ensures
        r@ == without_end(dir@, separator).push(separator),
{
    let chars: Vec<char> = chars_of(dir);
    let mut end: usize = chars.len();
    assert(chars@.take(end as int) =~= chars@);
    while end > 0 && chars[end - 1] == separator
        invariant
            end <= chars@.len(),
            without_end(chars@, separator) == without_end(chars@.take(end as int), separator),
        decreases end,
    {
        assert(chars@.take(end as int).drop_last() =~= chars@.take(end - 1));
        end -= 1;
    }
    let mut out: String = string_of(&chars, 0, end);
    assert(out@ =~= chars@.take(end as int));
    assert(end > 0 ==> chars@.take(end as int).last() == chars@[end - 1]);
    out.push(separator);
    out
}

/// A directory takes what was found in it and in all directories below it, and its list of
/// files holds the largest of those listed for it.
pub proof fn law_dir_adds_up(tree: DirTree, dir: int)
    requires
        tree.wf(),
        0 <= dir < tree.nodes@.len(),
    ensures
        tree.nodes@[dir].size == bytes_within(tree.parents(), tree.visits@, dir),
        is_top(tree.nodes@[dir].files@, found_in(tree.found@, dir), tree.top_n as nat),
{
    reveal(DirTree::wf);
}

/// No directory takes more than one that holds it.
pub proof fn law_holder_is_no_smaller(tree: DirTree, dir: int, above: int)
    requires
        tree.wf(),
        0 <= dir < tree.nodes@.len(),
        0 <= above < tree.nodes@.len(),
        is_within(tree.parents(), dir, above),
    ensures
        tree.nodes@[dir].size <= tree.nodes@[above].size,
{
    reveal(DirTree::wf);
    lemma_bytes_nested(tree.parents(), tree.visits@, dir, above);
}

proof fn lemma_within_nested(parents: Seq<Option<usize>>, dir: int, middle: int, above: int)
    requires
        is_within(parents, dir, middle),
        is_within(parents, middle, above),
    ensures
        is_within(parents, dir, above),
    decreases dir,
{
    if dir != middle && dir != above {
        lemma_within_nested(parents, parents[dir]->0 as int, middle, above);
    }
}

proof fn lemma_bytes_nested(parents: Seq<Option<usize>>, visits: Seq<Visit>, dir: int, above: int)
    requires
        is_within(parents, dir, above),
    ensures
        bytes_within(parents, visits, dir) <= bytes_within(parents, visits, above),
    decreases visits.len(),
{
    if visits.len() > 0 {
        lemma_bytes_nested(parents, visits.drop_last(), dir, above);
        if is_within(parents, visits.last().dir, dir) {
            lemma_within_nested(parents, visits.last().dir, dir, above);
        }
    }
}

/// In `chain`, the directory at `i` is followed by the one that holds it.
pub open spec fn steps_up(parents: Seq<Option<usize>>, chain: Seq<int>, i: int) -> bool {
    &&& 0 <= chain[i] < parents.len()
    &&& 0 <= chain[i + 1] <= usize::MAX
    &&& parents[chain[i]] == Some(chain[i + 1] as usize)
}

/// `chain` leads from `dir` to `above`, each directory followed by the one that holds it.
pub open spec fn leads_up(parents: Seq<Option<usize>>, chain: Seq<int>, dir: int, above: int) -> bool {
    &&& chain.len() > 0
    &&& chain[0] == dir
    &&& chain[chain.len() - 1] == above
    &&& forall|i: int| 0 <= i < chain.len() - 1 ==> #[trigger] steps_up(parents, chain, i)
}

/// A directory is in another just where the directories that hold it, one after the other, lead
/// there, however many they are.
pub proof fn law_within_by_holders(parents: Seq<Option<usize>>, dir: int, above: int)
    requires
        forall|i: int|
            0 <= i < parents.len() && (#[trigger] parents[i]) is Some ==> parents[i]->0 < i,
    ensures
        is_within(parents, dir, above) <==> exists|chain: Seq<int>| leads_up(
            parents,
            chain,
            dir,
            above,
        ),
{
    if is_within(parents, dir, above) {
        let chain = lemma_chain_up(parents, dir, above);
        assert(leads_up(parents, chain, dir, above));
    }
    if exists|chain: Seq<int>| leads_up(parents, chain, dir, above) {
        let chain = choose|chain: Seq<int>| leads_up(parents, chain, dir, above);
        lemma_chain_within(parents, chain, dir, above);
    }
}

proof fn lemma_chain_up(parents: Seq<Option<usize>>, dir: int, above: int) -> (chain: Seq<int>)
    requires
        is_within(parents, dir, above),
    ensures
        leads_up(parents, chain, dir, above),
    decreases dir,
{
    if dir == above {
        seq![dir]
    } else {
        let next = parents[dir]->0 as int;
        let rest = lemma_chain_up(parents, next, above);
        let chain = seq![dir] + rest;
        assert forall|i: int| 0 <= i < chain.len() - 1 implies #[trigger] steps_up(
            parents,
            chain,
            i,
        ) by {
            assert(chain[i + 1] == rest[i]);
            if i > 0 {
                assert(steps_up(parents, rest, i - 1));
                assert(chain[i] == rest[i - 1]);
            }
        }
        assert(chain[chain.len() - 1] == rest[rest.len() - 1]);
        chain
    }
}

proof fn lemma_chain_within(parents: Seq<Option<usize>>, chain: Seq<int>, dir: int, above: int)
    requires
        leads_up(parents, chain, dir, above),
        forall|i: int|
            0 <= i < parents.len() && (#[trigger] parents[i]) is Some ==> parents[i]->0 < i,
    ensures
        is_within(parents, dir, above),
    decreases chain.len(),
{
    if chain.len() > 1 {
        let rest = chain.skip(1);
        assert(steps_up(parents, chain, 0));
        assert forall|i: int| 0 <= i < rest.len() - 1 implies #[trigger] steps_up(
            parents,
            rest,
            i,
        ) by {
            assert(steps_up(parents, chain, i + 1));
            assert(rest[i] == chain[i + 1] && rest[i + 1] == chain[i + 2]);
        }
        lemma_chain_within(parents, rest, chain[1], above);
    }
}

/// Bytes found in a directory count for it and for those above it, and nowhere else; what was
/// found before stays, and nothing is found without a visit.
pub proof fn law_visits_add_up(
    parents: Seq<Option<usize>>,
    visits: Seq<Visit>,
    visit: Visit,
    above: int,
)
    ensures
        bytes_within(parents, visits.push(visit), above) == bytes_within(parents, visits, above) + (
        if is_within(parents, visit.dir, above) {
            visit.bytes
        } else {
            0
        }),
        visited_within(parents, visits.push(visit), above) == (visited_within(
            parents,
            visits,
            above,
        ) || is_within(parents, visit.dir, above)),
        total_bytes(visits.push(visit)) == total_bytes(visits) + visit.bytes,
        bytes_within(parents, Seq::empty(), above) == 0,
        !visited_within(parents, Seq::empty(), above),
        total_bytes(Seq::empty()) == 0,
{
    let more = visits.push(visit);
    assert(more.drop_last() =~= visits);
    if visited_within(parents, visits, above) {
        let j = choose|j: int|
            0 <= j < visits.len() && is_within(parents, (#[trigger] visits[j]).dir, above);
        assert(more[j] == visits[j]);
    }
    if is_within(parents, visit.dir, above) {
        assert(more[visits.len() as int] == visit);
    }
    if visited_within(parents, more, above) {
        let j = choose|j: int|
            0 <= j < more.len() && is_within(parents, (#[trigger] more[j]).dir, above);
        if j < visits.len() {
            assert(visits[j] == more[j]);
        }
    }
}

/// Every file that was found in one of the directories asked for is among the files found there,
/// as often as it was found, and no other is.
pub proof fn law_found_as_often(found: Seq<Found>, which: spec_fn(int) -> bool, e: SizeEntry)
    ensures
        found_where(found, which).count(e) == found.filter(
            |f: Found| which(f.dir) && f.entry == e,
        ).len(),
    decreases found.len(),
{
    reveal(Seq::filter);
    broadcast use vstd::multiset::group_multiset_axioms;

    if found.len() > 0 {
        law_found_as_often(found.drop_last(), which, e);
    }
}

/// `e` is one of the directories that bytes were added to, with its size.
pub open spec fn is_counted_dir(nodes: Seq<DirNode>, e: SizeEntry) -> bool {
    exists|i: int|
        0 <= i < nodes.len() && (#[trigger] nodes[i]).counted && nodes[i].path == e.path
            && nodes[i].size == e.size
}

/// The largest of the directories that bytes were added to are listed: every entry of the list
/// is one of them with its size, and one that is not listed is no larger than any in a full list.
pub proof fn law_largest_dirs_are_listed(nodes: Seq<DirNode>, list: Seq<SizeEntry>, n: nat)
    requires
        is_top(list, counted_dirs(nodes).to_multiset(), n),
    ensures
        ranked(list),
        list.len() <= n,
        forall|k: int|
            0 <= k < list.len() ==> is_counted_dir(nodes, #[trigger] list[k]),
        forall|i: int|
            0 <= i < nodes.len() && (#[trigger] nodes[i]).counted ==> list.contains(
                SizeEntry { path: nodes[i].path, size: nodes[i].size },
            ) || (list.len() == n && forall|k: int|
                0 <= k < list.len() ==> (#[trigger] list[k]).size >= nodes[i].size),
{
    broadcast use vstd::seq_lib::group_to_multiset_ensures;
    broadcast use vstd::multiset::group_multiset_axioms;

    let all = counted_dirs(nodes);
    let from = all.to_multiset();
    lemma_counted_exactly(nodes);
    assert forall|k: int| 0 <= k < list.len() implies is_counted_dir(nodes, #[trigger] list[k]) by {
        assert(list.contains(list[k]));
        assert(list.to_multiset().count(list[k]) <= from.count(list[k]));
        assert(all.contains(list[k]));
    }
    assert forall|i: int| 0 <= i < nodes.len() && (#[trigger] nodes[i]).counted implies list.contains(
        SizeEntry { path: nodes[i].path, size: nodes[i].size },
    ) || (list.len() == n && forall|k: int|
        0 <= k < list.len() ==> (#[trigger] list[k]).size >= nodes[i].size) by {
        let e = SizeEntry { path: nodes[i].path, size: nodes[i].size };
        assert(all.contains(e));
        if !list.contains(e) {
            assert(list.to_multiset().count(e) < from.count(e));
            if from.len() <= n {
                lemma_all_taken(list, from, e);
            }
        }
    }
}

proof fn lemma_counted_exactly(nodes: Seq<DirNode>)
    ensures
        forall|i: int|
            0 <= i < nodes.len() && (#[trigger] nodes[i]).counted ==> counted_dirs(nodes).contains(
                SizeEntry { path: nodes[i].path, size: nodes[i].size },
            ),
        forall|e: SizeEntry| #[trigger]
            counted_dirs(nodes).contains(e) ==> is_counted_dir(nodes, e),
    decreases nodes.len(),
{
    if nodes.len() > 0 {
        let rest = nodes.drop_last();
        lemma_counted_exactly(rest);
        let before = counted_dirs(rest);
        let all = counted_dirs(nodes);
        assert forall|i: int| 0 <= i < nodes.len() && (#[trigger] nodes[i]).counted implies all.contains(
            SizeEntry { path: nodes[i].path, size: nodes[i].size },
        ) by {
            let e = SizeEntry { path: nodes[i].path, size: nodes[i].size };
            if i < rest.len() {
                assert(rest[i] == nodes[i]);
                assert(before.contains(e));
                let k = choose|k: int| 0 <= k < before.len() && before[k] == e;
                assert(all[k] == e);
            } else {
                assert(all[all.len() - 1] == e);
            }
        }
        assert forall|e: SizeEntry| #[trigger] all.contains(e) implies is_counted_dir(nodes, e) by {
            let k = choose|k: int| 0 <= k < all.len() && all[k] == e;
            if k < before.len() {
                assert(before[k] == e);
                assert(before.contains(e));
                let i = choose|i: int|
                    0 <= i < rest.len() && (#[trigger] rest[i]).counted && rest[i].path == e.path
                        && rest[i].size == e.size;
                assert(nodes[i] == rest[i]);
            } else {
                assert(nodes[nodes.len() - 1].counted);
            }
        }
    }
}

/// What is found are entries that were listed for a directory asked for, and all of them.
pub proof fn lemma_found_exactly(found: Seq<Found>, which: spec_fn(int) -> bool)
    ensures
        forall|j: int|
            0 <= j < found.len() && which((#[trigger] found[j]).dir) ==> found_where(
                found,
                which,
            ).count(found[j].entry) > 0,
        forall|e: SizeEntry| #[trigger]
            found_where(found, which).count(e) > 0 ==> exists|j: int|
                0 <= j < found.len() && which((#[trigger] found[j]).dir) && found[j].entry == e,
    decreases found.len(),
{
    broadcast use vstd::multiset::group_multiset_axioms;

    if found.len() > 0 {
        let rest = found.drop_last();
        lemma_found_exactly(rest, which);
        assert forall|j: int|
            0 <= j < found.len() && which((#[trigger] found[j]).dir) implies found_where(
            found,
            which,
        ).count(found[j].entry) > 0 by {
            if j < rest.len() {
                assert(rest[j] == found[j]);
            }
        }
        assert forall|e: SizeEntry| #[trigger] found_where(found, which).count(e) > 0 implies exists|
            j: int,
        |
            0 <= j < found.len() && which((#[trigger] found[j]).dir) && found[j].entry == e by {
            if found_where(rest, which).count(e) > 0 {
                let j = choose|j: int|
                    0 <= j < rest.len() && which((#[trigger] rest[j]).dir) && rest[j].entry == e;
                assert(found[j] == rest[j]);
            } else {
                assert(found[found.len() - 1].entry == e);
            }
        }
    }
}

/// Without the separators at its end a path is what stands before them.
pub proof fn law_without_end(s: Seq<char>, separator: char)
    ensures
        without_end(s, separator).is_prefix_of(s),
        without_end(s, separator).len() > 0 ==> without_end(s, separator).last() != separator,
        forall|i: int| without_end(s, separator).len() <= i < s.len() ==> #[trigger] s[i]
            == separator,
    decreases s.len(),
{
    let w = without_end(s, separator);
    if s.len() > 0 && s.last() == separator {
        let rest = s.drop_last();
        law_without_end(rest, separator);
        assert(w =~= rest.subrange(0, w.len() as int));
        assert(w =~= s.subrange(0, w.len() as int));
        assert forall|i: int| w.len() <= i < s.len() implies #[trigger] s[i] == separator by {
            if i < rest.len() {
                assert(rest[i] == s[i]);
            }
        }
    } else {
        assert(w =~= s.subrange(0, w.len() as int));
    }
}

/// A path belongs to a directory just where it is that directory's own, or leads on from it by
/// one separator and anything behind it.
pub proof fn law_belonging_as_written(dir: Seq<char>, rest: Seq<char>, path: Seq<char>, separator: char)
    ensures
        belongs_to(dir, dir, separator),
        belongs_to(without_end(dir, separator).push(separator) + rest, dir, separator),
        path != dir && !without_end(dir, separator).push(separator).is_prefix_of(path)
            ==> !belongs_to(path, dir, separator),
{
    let p = without_end(dir, separator).push(separator);
    assert(p =~= (p + rest).subrange(0, p.len() as int));
}

} // verus!
