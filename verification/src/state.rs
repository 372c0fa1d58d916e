//! What a scan has found so far, and the copies of it that the interface works on.

use vstd::prelude::*;

use crate::ranking::{ranked, SizeEntry};
use crate::text::{owned, starts_with};

verus! {

/// Which paths a deletion takes out of a list.
pub enum Cut {
    /// The path itself.
    Path,
    /// Everything below the path.
    Below,
    /// The path and everything below it.
    Tree,
}

/// `path` lies below the directory `dir`.
pub open spec fn lies_below(path: Seq<char>, dir: Seq<char>) -> bool {
    dir.push('/').is_prefix_of(path)
}

/// Whether `cut` at `at` takes `path` out.
pub open spec fn takes_out(cut: Cut, at: Seq<char>, path: Seq<char>) -> bool {
    match cut {
        Cut::Path => path == at,
        Cut::Below => lies_below(path, at),
        Cut::Tree => path == at || lies_below(path, at),
    }
}

/// `list` without the entries that `cut` at `at` takes out.
pub open spec fn cut_list(list: Seq<SizeEntry>, cut: Cut, at: Seq<char>) -> Seq<SizeEntry> {
    list.filter(|e: SizeEntry| !takes_out(cut, at, e.path@))
}

/// Whether the two strings are the same.
fn same(a: &String, b: &String) -> (r: bool)
    ensures
        r == (a@ == b@),
{
    *a == *b
}

/// `dir` as a prefix of what lies below it.
pub fn below_prefix(dir: &String) -> (r: String)
    ensures
        r@ == dir@.push('/'),
{
    let mut prefix = owned(dir.as_str());
    prefix.push('/');
    prefix
}

/// Whether `cut` at `at` takes `path` out.
pub fn is_taken_out(cut: &Cut, at: &String, path: &String) -> (r: bool)
    ensures
        r == takes_out(*cut, at@, path@),
{
    match cut {
        Cut::Path => same(path, at),
        Cut::Below => starts_with(path.as_str(), below_prefix(at).as_str()),
        Cut::Tree => same(path, at) || starts_with(path.as_str(), below_prefix(at).as_str()),
    }
}

/// The entries of `list` that `cut` at `at` leaves.
pub fn cut_entries(list: &Vec<SizeEntry>, cut: &Cut, at: &String) -> (r: Vec<SizeEntry>)
    ensures
        r@ == cut_list(list@, *cut, at@),
{
    let ghost keep = |e: SizeEntry| !takes_out(*cut, at@, e.path@);
    let mut out: Vec<SizeEntry> = Vec::new();
    let mut i: usize = 0;
    proof {
        reveal(Seq::filter);
        assert(list@.take(0).filter(keep) =~= Seq::<SizeEntry>::empty());
    }
    while i < list.len()
        invariant
            i <= list@.len(),
            keep == (|e: SizeEntry| !takes_out(*cut, at@, e.path@)),
            out@ == list@.take(i as int).filter(keep),
        decreases list@.len() - i,
    {
        proof {
            reveal(Seq::filter);
            assert(list@.take(i + 1).drop_last() =~= list@.take(i as int));
            assert(list@.take(i + 1).last() == list@[i as int]);
        }
        if !is_taken_out(cut, at, &list[i].path) {
            out.push(list[i].clone());
        }
        i += 1;
    }
    assert(list@.take(list@.len() as int) =~= list@);
    out
}

/// What is left of a ranked list is ranked.
pub proof fn lemma_cut_ranked(list: Seq<SizeEntry>, cut: Cut, at: Seq<char>)
    requires
        ranked(list),
    ensures
        ranked(cut_list(list, cut, at)),
    decreases list.len(),
{
    reveal(Seq::filter);
    let keep = |e: SizeEntry| !takes_out(cut, at, e.path@);
    if list.len() > 0 {
        let init = list.drop_last();
        lemma_cut_ranked(init, cut, at);
        let rest = init.filter(keep);
        assert forall|i: int| 0 <= i < rest.len() implies rest[i].size >= list.last().size by {
            assert(rest.contains(rest[i]));
            init.lemma_filter_contains_rev(keep, rest[i]);
            let j = choose|j: int| 0 <= j < init.len() && init[j] == rest[i];
            assert(list[j].size >= list[list.len() - 1].size);
        }
    }
}

/// A copy of `list`.
pub fn copy_entries(list: &Vec<SizeEntry>) -> (r: Vec<SizeEntry>)
    ensures
        r@ == list@,
{
    let r: Vec<SizeEntry> = list.clone();
    assert(r@ =~= list@);
    r
}

/// The largest files of one directory.
pub struct DirListing {
    pub dir: String,
    pub files: Vec<SizeEntry>,
}

/// The files that the last listing of `dir` in `lists` holds.
pub open spec fn listed(lists: Seq<DirListing>, dir: Seq<char>) -> Option<Seq<SizeEntry>>
    decreases lists.len(),
{
    if lists.len() == 0 {
        None
    } else if lists.last().dir@ == dir {
        Some(lists.last().files@)
    } else {
        listed(lists.drop_last(), dir)
    }
}

/// Lists of files by directory, each directory once.
pub struct DirFiles {
    pub lists: Vec<DirListing>,
}

impl View for DirFiles {
    type V = Map<Seq<char>, Seq<SizeEntry>>;

    open spec fn view(&self) -> Map<Seq<char>, Seq<SizeEntry>> {
        Map::new(
            |dir: Seq<char>| listed(self.lists@, dir) is Some,
            |dir: Seq<char>| listed(self.lists@, dir)->0,
        )
    }
}

/// No two listings are of the same directory.
pub open spec fn distinct(lists: Seq<DirListing>) -> bool {
    forall|i: int, j: int| 0 <= i < j < lists.len() ==> lists[i].dir@ != lists[j].dir@
}

/// In lists of distinct directories, a directory has the files of the listing that names it.
proof fn lemma_listed(lists: Seq<DirListing>, dir: Seq<char>)
    requires
        distinct(lists),
    ensures
        forall|i: int| 0 <= i < lists.len() && #[trigger] lists[i].dir@ == dir ==> listed(lists, dir)
            == Some(lists[i].files@),
        (forall|i: int| 0 <= i < lists.len() ==> #[trigger] lists[i].dir@ != dir) ==> listed(
            lists,
            dir,
        ) is None,
    decreases lists.len(),
{
    if lists.len() > 0 {
        lemma_listed(lists.drop_last(), dir);
        assert forall|i: int| 0 <= i < lists.len() && #[trigger] lists[i].dir@ == dir implies listed(
            lists,
            dir,
        ) == Some(lists[i].files@) by {
            if i < lists.len() - 1 {
                assert(lists.drop_last()[i].dir@ == dir);
            }
        }
        if forall|i: int| 0 <= i < lists.len() ==> #[trigger] lists[i].dir@ != dir {
            assert(lists[lists.len() - 1].dir@ != dir);
        }
    }
}

impl DirFiles {
    pub open spec fn wf(&self) -> bool {
        distinct(self.lists@)
    }

    /// No lists.
    pub fn new() -> (r: Self)
        ensures
            r.wf(),
            r@ == Map::<Seq<char>, Seq<SizeEntry>>::empty(),
    {
        let r = DirFiles { lists: Vec::new() };
        assert(r@ =~= Map::<Seq<char>, Seq<SizeEntry>>::empty());
        r
    }

    /// The index of the listing of `dir`, or the number of listings where there is none.
    fn position(&self, dir: &String) -> (r: usize)
        requires
            self.wf(),
        ensures
            r <= self.lists@.len(),
            r < self.lists@.len() ==> self.lists@[r as int].dir@ == dir@ && self@.contains_key(dir@)
                && self@[dir@] == self.lists@[r as int].files@,
            r == self.lists@.len() ==> !self@.contains_key(dir@) && (forall|i: int|
                0 <= i < self.lists@.len() ==> #[trigger] self.lists@[i].dir@ != dir@),
    {
        proof {
            lemma_listed(self.lists@, dir@);
        }
        let mut i: usize = 0;
        while i < self.lists.len()
            invariant
                i <= self.lists@.len(),
                forall|j: int| 0 <= j < i ==> #[trigger] self.lists@[j].dir@ != dir@,
                forall|j: int|
                    0 <= j < self.lists@.len() && #[trigger] self.lists@[j].dir@ == dir@ ==> listed(
                        self.lists@,
                        dir@,
                    ) == Some(self.lists@[j].files@),
            decreases self.lists@.len() - i,
        {
            if same(&self.lists[i].dir, dir) {
                return i;
            }
            i += 1;
        }
        i
    }

    /// The files listed for `dir`.
    pub fn get(&self, dir: &String) -> (r: Option<&Vec<SizeEntry>>)
        requires
            self.wf(),
        ensures
            match r {
                Some(files) => self@.contains_key(dir@) && files@ == self@[dir@],
                None => !self@.contains_key(dir@),
            },
    {
        let i: usize = self.position(dir);
        if i < self.lists.len() {
            Some(&self.lists[i].files)
        } else {
            None
        }
    }

    /// Lists `files` for `dir`, in place of what was listed for it.
    pub fn insert(&mut self, dir: String, files: Vec<SizeEntry>)
        requires
            old(self).wf(),
        ensures
            final(self).wf(),
            final(self)@ == old(self)@.insert(dir@, files@),
    {
        let ghost before = self.lists@;
        let ghost d = dir@;
        let ghost f = files@;
        let i: usize = self.position(&dir);
        if i < self.lists.len() {
            self.lists.set(i, DirListing { dir, files });
        } else {
            self.lists.push(DirListing { dir, files });
        }
        proof {
            assert(distinct(self.lists@));
            assert forall|k: Seq<char>| listed(self.lists@, k) == (if k == d {
                Some(f)
            } else {
                #[trigger] listed(before, k)
            }) by {
                lemma_listed(before, k);
                lemma_listed(self.lists@, k);
                if k == d {
                    assert(self.lists@[i as int].dir@ == d);
                } else if exists|j: int| 0 <= j < before.len() && #[trigger] before[j].dir@ == k {
                    let j = choose|j: int| 0 <= j < before.len() && #[trigger] before[j].dir@ == k;
                    assert(self.lists@[j] == before[j]);
                    assert(self.lists@[j].dir@ == k);
                } else {
                    assert forall|j: int| 0 <= j < self.lists@.len() implies #[trigger] self.lists@[j].dir@
                        != k by {
                        if j != i {
                            assert(before[j].dir@ != k);
                        }
                    }
                }
            }
            assert(self@ =~= old(self)@.insert(d, f));
        }
    }

    /// The lists with some taken out and the others cut: the lists of the directories that
    /// `dirs` at `at` leaves, each without the files that `files` at `at` takes out.
    fn cut_lists(&self, dirs: Option<Cut>, files: Option<Cut>, at: &String) -> (r: Self)
        requires
            self.wf(),
        ensures
            r.wf(),
            forall|k: Seq<char>| #[trigger]
                listed(r.lists@, k) == cut_listing(listed(self.lists@, k), k, dirs, files, at@),
    {
        let mut out: Vec<DirListing> = Vec::new();
        let mut i: usize = 0;
        while i < self.lists.len()
            invariant
                i <= self.lists@.len(),
                self.wf(),
                distinct(out@),
                forall|k: Seq<char>| #[trigger]
                    listed(out@, k) == cut_listing(
                        listed(self.lists@.take(i as int), k),
                        k,
                        dirs,
                        files,
                        at@,
                    ),
            decreases self.lists@.len() - i,
        {
            let ghost seen = self.lists@.take(i as int);
            let ghost next = self.lists@.take(i + 1);
            let ghost before = out@;
            let item: &DirListing = &self.lists[i];
            let leave: bool = match &dirs {
                Some(cut) => !is_taken_out(cut, at, &item.dir),
                None => true,
            };
            proof {
                assert(next.drop_last() =~= seen);
                assert(next.last() == *item);
                lemma_listed(seen, item.dir@);
                assert(listed(seen, item.dir@) is None) by {
                    assert forall|j: int| 0 <= j < seen.len() implies #[trigger] seen[j].dir@
                        != item.dir@ by {
                        assert(self.lists@[j].dir@ != self.lists@[i as int].dir@);
                    }
                }
                assert(listed(before, item.dir@) is None);
                assert forall|j: int| 0 <= j < before.len() implies #[trigger] before[j].dir@
                    != item.dir@ by {
                    lemma_named_is_listed(before, j);
                }
            }
            if leave {
                let kept: Vec<SizeEntry> = match &files {
                    Some(cut) => cut_entries(&item.files, cut, at),
                    None => copy_entries(&item.files),
                };
                out.push(DirListing { dir: item.dir.clone(), files: kept });
                assert(out@.drop_last() =~= before);
            }
            assert forall|k: Seq<char>| #[trigger]
                listed(out@, k) == cut_listing(listed(next, k), k, dirs, files, at@) by {
                assert(listed(before, k) == cut_listing(listed(seen, k), k, dirs, files, at@));
            }
            i += 1;
        }
        assert(self.lists@.take(self.lists@.len() as int) =~= self.lists@);
        DirFiles { lists: out }
    }

    /// A copy of the lists.
    pub fn copy(&self) -> (r: Self)
        requires
            self.wf(),
        ensures
            r.wf(),
            r@ == self@,
    {
        let r = self.cut_lists(None, None, &String::new());
        assert(r@ =~= self@);
        r
    }

    /// Takes out the lists of `at` and of the directories below it.
    pub fn cut_dirs(&mut self, at: &String)
        requires
            old(self).wf(),
        ensures
            final(self).wf(),
            final(self)@ == old(self)@.restrict(
                Set::new(|dir: Seq<char>| !takes_out(Cut::Tree, at@, dir)),
            ),
    {
        let r = self.cut_lists(Some(Cut::Tree), None, at);
        proof {
            let left = Set::new(|dir: Seq<char>| !takes_out(Cut::Tree, at@, dir));
            assert(r@ =~= self@.restrict(left));
        }
        *self = r;
    }

    /// Takes the file `at` out of every list.
    pub fn cut_file(&mut self, at: &String)
        requires
            old(self).wf(),
        ensures
            final(self).wf(),
            final(self)@ == old(self)@.map_values(
                |files: Seq<SizeEntry>| cut_list(files, Cut::Path, at@),
            ),
    {
        let r = self.cut_lists(None, Some(Cut::Path), at);
        assert(r@ =~= self@.map_values(|files: Seq<SizeEntry>| cut_list(files, Cut::Path, at@)));
        *self = r;
    }
}

/// What is left of the listing of `dir` after a cut of directories and one of files.
spec fn cut_listing(
    files_of: Option<Seq<SizeEntry>>,
    dir: Seq<char>,
    dirs: Option<Cut>,
    files: Option<Cut>,
    at: Seq<char>,
) -> Option<Seq<SizeEntry>> {
    match files_of {
        Some(list) => if dirs is Some && takes_out(dirs->0, at, dir) {
            None
        } else {
            match files {
                Some(cut) => Some(cut_list(list, cut, at)),
                None => Some(list),
            }
        },
        None => None,
    }
}

proof fn lemma_named_is_listed(lists: Seq<DirListing>, j: int)
    requires
        0 <= j < lists.len(),
    ensures
        listed(lists, lists[j].dir@) is Some,
    decreases lists.len(),
{
    if j < lists.len() - 1 {
        lemma_named_is_listed(lists.drop_last(), j);
    }
}

/// What the interface lists.
pub struct ScanLists {
    pub top_files: Vec<SizeEntry>,
    pub top_dirs: Vec<SizeEntry>,
    pub dir_files: DirFiles,
    pub current_path: String,
}

impl ScanLists {
    /// The lists are ranked, and each directory has its files listed once.
    pub open spec fn wf(&self) -> bool {
        &&& ranked(self.top_files@)
        &&& ranked(self.top_dirs@)
        &&& self.dir_files.wf()
    }

    /// Forgets the deleted directory `path` and everything below it.
    pub fn forget_dir(&mut self, path: &String)
        requires
            old(self).wf(),
        ensures
            final(self).wf(),
            final(self).top_dirs@ == cut_list(old(self).top_dirs@, Cut::Tree, path@),
            final(self).top_files@ == cut_list(old(self).top_files@, Cut::Below, path@),
            final(self).dir_files@ == old(self).dir_files@.restrict(
                Set::new(|dir: Seq<char>| !takes_out(Cut::Tree, path@, dir)),
            ),
            final(self).current_path == old(self).current_path,
    {
        proof {
            lemma_cut_ranked(self.top_dirs@, Cut::Tree, path@);
            lemma_cut_ranked(self.top_files@, Cut::Below, path@);
        }
        self.top_dirs = cut_entries(&self.top_dirs, &Cut::Tree, path);
        self.top_files = cut_entries(&self.top_files, &Cut::Below, path);
        self.dir_files.cut_dirs(path);
    }

    /// Forgets the deleted file `path`.
    pub fn forget_file(&mut self, path: &String)
        requires
            old(self).wf(),
        ensures
            final(self).wf(),
            final(self).top_files@ == cut_list(old(self).top_files@, Cut::Path, path@),
            final(self).top_dirs == old(self).top_dirs,
            final(self).dir_files@ == old(self).dir_files@.map_values(
                |files: Seq<SizeEntry>| cut_list(files, Cut::Path, path@),
            ),
            final(self).current_path == old(self).current_path,
    {
        proof {
            lemma_cut_ranked(self.top_files@, Cut::Path, path@);
        }
        self.top_files = cut_entries(&self.top_files, &Cut::Path, path);
        self.dir_files.cut_file(path);
    }
}

/// `after` is `before` without the deleted `path` and, of a directory, what lies below it.
pub open spec fn forgets(before: ScanLists, after: ScanLists, path: Seq<char>, is_dir: bool) -> bool {
    &&& after.current_path == before.current_path
    &&& if is_dir {
        &&& after.top_dirs@ == cut_list(before.top_dirs@, Cut::Tree, path)
        &&& after.top_files@ == cut_list(before.top_files@, Cut::Below, path)
        &&& after.dir_files@ == before.dir_files@.restrict(
            Set::new(|dir: Seq<char>| !takes_out(Cut::Tree, path, dir)),
        )
    } else {
        &&& after.top_dirs == before.top_dirs
        &&& after.top_files@ == cut_list(before.top_files@, Cut::Path, path)
        &&& after.dir_files@ == before.dir_files@.map_values(
            |files: Seq<SizeEntry>| cut_list(files, Cut::Path, path),
        )
    }
}

/// What a scan has found so far.
pub struct ScanState {
    pub lists: ScanLists,
    pub total_bytes: u64,
    pub file_count: u64,
    pub dir_count: u64,
    pub error_count: u64,
    pub done: bool,
}

impl ScanState {
    /// A scan that has found nothing yet.
    pub fn new() -> (r: Self)
        ensures
            r.lists.wf(),
            r.lists.top_files@ == Seq::<SizeEntry>::empty(),
            r.lists.top_dirs@ == Seq::<SizeEntry>::empty(),
            r.lists.dir_files@ == Map::<Seq<char>, Seq<SizeEntry>>::empty(),
            r.lists.current_path@ == Seq::<char>::empty(),
            r.total_bytes == 0,
            r.file_count == 0,
            r.dir_count == 0,
            r.error_count == 0,
            !r.done,
    {
        ScanState {
            lists: ScanLists {
                top_files: Vec::new(),
                top_dirs: Vec::new(),
                dir_files: DirFiles::new(),
                current_path: String::new(),
            },
            total_bytes: 0,
            file_count: 0,
            dir_count: 0,
            error_count: 0,
            done: false,
        }
    }
}

/// What a scan allows and leaves out.
pub struct ScanOptions {
    pub max_depth: Option<usize>,
    pub exclude: Vec<String>,
    pub one_file_system: bool,
    pub root_dev: u64,
}

/// A copy of what a scan has found, for one picture of the interface.
pub struct FrameData {
    pub top_files: Vec<SizeEntry>,
    pub top_dirs: Vec<SizeEntry>,
    pub dir_files: DirFiles,
    pub total_bytes: u64,
    pub file_count: u64,
    pub dir_count: u64,
    pub error_count: u64,
    pub done: bool,
}

impl FrameData {
    pub open spec fn wf(&self) -> bool {
        self.dir_files.wf()
    }
}

/// A copy of what the scan has found so far.
pub fn snapshot(state: &ScanState) -> (r: FrameData)
    requires
        state.lists.wf(),
    ensures
        r.wf(),
        r.top_files@ == state.lists.top_files@,
        r.top_dirs@ == state.lists.top_dirs@,
        r.dir_files@ == state.lists.dir_files@,
        r.total_bytes == state.total_bytes,
        r.file_count == state.file_count,
        r.dir_count == state.dir_count,
        r.error_count == state.error_count,
        r.done == state.done,
{
    FrameData {
        top_files: copy_entries(&state.lists.top_files),
        top_dirs: copy_entries(&state.lists.top_dirs),
        dir_files: state.lists.dir_files.copy(),
        total_bytes: state.total_bytes,
        file_count: state.file_count,
        dir_count: state.dir_count,
        error_count: state.error_count,
        done: state.done,
    }
}

/// A deletion takes what it has to out of a list, and nothing else.
pub proof fn law_cut_is_exact(list: Seq<SizeEntry>, cut: Cut, at: Seq<char>, e: SizeEntry)
    ensures
        cut_list(list, cut, at).contains(e) == (list.contains(e) && !takes_out(cut, at, e.path@)),
{
    let keep = |e: SizeEntry| !takes_out(cut, at, e.path@);
    let rest = list.filter(keep);
    if rest.contains(e) {
        let i = choose|i: int| 0 <= i < rest.len() && rest[i] == e;
        list.lemma_filter_pred(keep, i);
        list.lemma_filter_contains_rev(keep, e);
    }
    if list.contains(e) && keep(e) {
        let i = choose|i: int| 0 <= i < list.len() && list[i] == e;
        list.lemma_filter_contains(keep, i);
    }
}

/// A deleted directory is forgotten with everything below it, and nothing else is; the order of
/// what is left stays.
pub proof fn law_deleted_dir_is_forgotten(before: ScanLists, after: ScanLists, path: Seq<char>)
    requires
        forgets(before, after, path, true),
    ensures
        after.current_path == before.current_path,
        after.top_dirs@ == before.top_dirs@.filter(
            |e: SizeEntry| e.path@ != path && !path.push('/').is_prefix_of(e.path@),
        ),
        after.top_files@ == before.top_files@.filter(
            |e: SizeEntry| !path.push('/').is_prefix_of(e.path@),
        ),
        forall|dir: Seq<char>| #[trigger]
            after.dir_files@.contains_key(dir) == (before.dir_files@.contains_key(dir) && dir != path
                && !path.push('/').is_prefix_of(dir)),
        forall|dir: Seq<char>| #[trigger]
            after.dir_files@.contains_key(dir) ==> after.dir_files@[dir] == before.dir_files@[dir],
{
    let a = |e: SizeEntry| !takes_out(Cut::Tree, path, e.path@);
    let b = |e: SizeEntry| e.path@ != path && !path.push('/').is_prefix_of(e.path@);
    assert(a =~= b);
    let c = |e: SizeEntry| !takes_out(Cut::Below, path, e.path@);
    let d = |e: SizeEntry| !path.push('/').is_prefix_of(e.path@);
    assert(c =~= d);
}

/// A deleted file is forgotten wherever it is listed, and nothing else is; the order of what is
/// left stays.
pub proof fn law_deleted_file_is_forgotten(before: ScanLists, after: ScanLists, path: Seq<char>)
    requires
        forgets(before, after, path, false),
    ensures
        after.current_path == before.current_path,
        after.top_dirs@ == before.top_dirs@,
        after.top_files@ == before.top_files@.filter(|e: SizeEntry| e.path@ != path),
        forall|dir: Seq<char>| #[trigger]
            after.dir_files@.contains_key(dir) == before.dir_files@.contains_key(dir),
        forall|dir: Seq<char>| #[trigger]
            after.dir_files@.contains_key(dir) ==> after.dir_files@[dir]
                == before.dir_files@[dir].filter(|e: SizeEntry| e.path@ != path),
{
    let a = |e: SizeEntry| !takes_out(Cut::Path, path, e.path@);
    let b = |e: SizeEntry| e.path@ != path;
    assert(a =~= b);
}

/// The files of a directory are those of the listing that names it, and a directory that none
/// names has no list.
pub proof fn law_lists_by_directory(files: DirFiles, dir: Seq<char>)
    requires
        files.wf(),
    ensures
        files@.contains_key(dir) <==> exists|i: int|
            0 <= i < files.lists@.len() && (#[trigger] files.lists@[i]).dir@ == dir,
        forall|i: int|
            0 <= i < files.lists@.len() && (#[trigger] files.lists@[i]).dir@ == dir ==> files@[dir]
                == files.lists@[i].files@,
{
    lemma_listed(files.lists@, dir);
    if exists|i: int| 0 <= i < files.lists@.len() && (#[trigger] files.lists@[i]).dir@ == dir {
        let i = choose|i: int| 0 <= i < files.lists@.len() && (#[trigger] files.lists@[i]).dir@ == dir;
        assert(files.lists@[i].dir@ == dir);
    }
}

} // verus!
