//! Paths with their sizes, and lists of the largest of them.

use core::cmp::Ordering;
use vstd::multiset::Multiset;
use vstd::prelude::*;

verus! {

/// A file or a directory and the bytes it takes.
pub struct SizeEntry {
    pub path: String,
    pub size: u64,
}

impl Clone for SizeEntry {
    fn clone(&self) -> (r: Self)
        ensures
            r == *self,
    {
        SizeEntry { path: self.path.clone(), size: self.size }
    }
}

/// No entry is larger than one before it.
pub open spec fn ranked(list: Seq<SizeEntry>) -> bool {
    forall|i: int, j: int| 0 <= i <= j < list.len() ==> list[i].size >= list[j].size
}

/// `list` ranks the `n` largest entries of `from`, or all of them where there are fewer.
/// Which of several entries of one size are taken, and in which order, is left open.
pub open spec fn is_top(list: Seq<SizeEntry>, from: Multiset<SizeEntry>, n: nat) -> bool {
    &&& ranked(list)
    &&& list.len() == (if from.len() <= n {
        from.len()
    } else {
        n
    })
    &&& forall|e: SizeEntry| list.to_multiset().count(e) <= #[trigger] from.count(e)
    &&& forall|e: SizeEntry, i: int|
        #![trigger from.count(e), list[i]]
        0 <= i < list.len() && list.to_multiset().count(e) < from.count(e) ==> list[i].size >= e.size
}

/// `pos` is a place for an entry of `size` in a ranked list: at an entry of that size where
/// there is one, otherwise between the larger and the smaller ones.
pub open spec fn is_slot(list: Seq<SizeEntry>, size: u64, pos: int) -> bool {
    &&& 0 <= pos <= list.len()
    &&& forall|i: int| 0 <= i < pos ==> list[i].size >= size
    &&& forall|i: int| pos <= i < list.len() ==> list[i].size <= size
    &&& (exists|i: int| 0 <= i < list.len() && list[i].size == size) ==> pos < list.len()
        && list[pos].size == size
}

/// `list` with `entry` put in at `pos`, cut back by one where it outgrew `n`; `list` itself
/// where `pos` is not among the first `n` places.
pub open spec fn with_entry(list: Seq<SizeEntry>, entry: SizeEntry, pos: int, n: nat) -> Seq<
    SizeEntry,
> {
    if pos >= n {
        list
    } else if list.len() + 1 > n {
        list.insert(pos, entry).drop_last()
    } else {
        list.insert(pos, entry)
    }
}

/// `after` is the ranked list `before`, which keeps the `n` largest, with `entry` put in.
pub open spec fn takes_entry(
    before: Seq<SizeEntry>,
    after: Seq<SizeEntry>,
    entry: SizeEntry,
    n: nat,
) -> bool {
    exists|pos: int|
        #![trigger is_slot(before, entry.size, pos)]
        is_slot(before, entry.size, pos) && after == with_entry(before, entry, pos, n)
}

/// Orders sizes from the largest to the smallest.
fn larger_first(a: u64, b: u64) -> (r: Ordering)
    ensures
        r == (if a > b {
            Ordering::Less
        } else if a == b {
            Ordering::Equal
        } else {
            Ordering::Greater
        }),
{
    if a > b {
        Ordering::Less
    } else if a == b {
        Ordering::Equal
    } else {
        Ordering::Greater
    }
}

/// `r` tells where the ranked `list` holds an entry of `size`: `Ok` with the index of one,
/// `Err` with the number of the larger entries where there is none.
pub open spec fn is_found(list: Seq<SizeEntry>, size: u64, r: Result<usize, usize>) -> bool {
    match r {
        Ok(p) => p < list.len() && list[p as int].size == size,
        Err(p) => {
            &&& p <= list.len()
            &&& forall|i: int| 0 <= i < p ==> list[i].size > size
            &&& forall|i: int| p <= i < list.len() ==> list[i].size < size
        },
    }
}

/// Calls `slice::binary_search_by`: in a ranked list, the index of some entry of `size`, or
/// as the error the index at which one could be put.
#[verifier::external_body]
fn find_size(list: &Vec<SizeEntry>, size: u64) -> (r: Result<usize, usize>)
    requires
        ranked(list@),
    ensures
        is_found(list@, size, r),
{
    list.binary_search_by(|e| larger_first(e.size, size))
}

/// Calls `slice::sort_unstable_by`: the same entries, ranked. The order of entries of one
/// size is left open.
#[verifier::external_body]
fn sort_by_size(list: &mut Vec<SizeEntry>)
    ensures
        ranked(final(list)@),
        final(list)@.to_multiset() == old(list)@.to_multiset(),
{
    list.sort_unstable_by(|a, b| larger_first(a.size, b.size))
}

/// Puts `entry` into a list that keeps the `n` largest.
pub fn insert_top_n(list: &mut Vec<SizeEntry>, entry: SizeEntry, n: usize)
    requires
        ranked(old(list)@),
    ensures
        takes_entry(old(list)@, final(list)@, entry, n as nat),
        ranked(final(list)@),
{
    let ghost before = list@;
    let pos: usize = match find_size(list, entry.size) {
        Ok(p) => p,
        Err(p) => p,
    };
    assert(is_slot(before, entry.size, pos as int));
    if pos < n {
        list.insert(pos, entry);
        if list.len() > n {
            let _ = list.pop();
        }
    }
    assert(list@ =~= with_entry(before, entry, pos as int, n as nat));
}

/// The `n` largest of `list`, ranked.
pub fn keep_largest(list: Vec<SizeEntry>, n: usize) -> (r: Vec<SizeEntry>)
    ensures
        is_top(r@, list@.to_multiset(), n as nat),
{
    let ghost all = list@.to_multiset();
    let mut out: Vec<SizeEntry> = list;
    sort_by_size(&mut out);
    let ghost sorted = out@;
    out.truncate(n);
    proof {
        broadcast use vstd::seq_lib::group_to_multiset_ensures;
        let rest = sorted.skip(out@.len() as int);
        assert(out@ =~= sorted.take(out@.len() as int));
        assert(sorted =~= out@ + rest);
        vstd::seq_lib::lemma_multiset_commutative(out@, rest);
        assert(sorted.to_multiset() =~= out@.to_multiset().add(rest.to_multiset()));
        assert forall|e: SizeEntry, i: int|
            #![trigger all.count(e), out@[i]]
            0 <= i < out@.len() && out@.to_multiset().count(e) < all.count(e) implies out@[i].size
            >= e.size by {
            assert(rest.to_multiset().count(e) > 0);
            assert(rest.contains(e));
        }
    }
    out
}

/// An insertion keeps a top list complete: where the list held the `n` largest of `from`, it
/// then holds the `n` largest of `from` and the new entry.
pub proof fn law_insert_keeps_top(
    list: Seq<SizeEntry>,
    from: Multiset<SizeEntry>,
    entry: SizeEntry,
    pos: int,
    n: nat,
)
    requires
        is_top(list, from, n),
        is_slot(list, entry.size, pos),
    ensures
        is_top(with_entry(list, entry, pos, n), from.insert(entry), n),
{
    broadcast use vstd::seq_lib::group_to_multiset_ensures;
    broadcast use vstd::multiset::group_multiset_axioms;

    let after = with_entry(list, entry, pos, n);
    let all = from.insert(entry);
    assert(all.len() == from.len() + 1);
    if pos >= n {
        assert(after == list);
        assert forall|e: SizeEntry, i: int|
            #![trigger all.count(e), after[i]]
            0 <= i < after.len() && after.to_multiset().count(e) < all.count(e) implies after[i].size
            >= e.size by {
            if e != entry {
                assert(from.count(e) == all.count(e));
            }
        }
        assert forall|e: SizeEntry| after.to_multiset().count(e) <= #[trigger] all.count(e) by {
            assert(after.to_multiset().count(e) <= from.count(e));
        }
    } else {
        let grown = list.insert(pos, entry);
        vstd::seq_lib::to_multiset_insert(list, pos, entry);
        assert(grown.to_multiset() =~= list.to_multiset().insert(entry));
        assert forall|e: SizeEntry| grown.to_multiset().count(e) <= #[trigger] all.count(e) by {
            assert(list.to_multiset().count(e) <= from.count(e));
        }
        assert(ranked(grown));
        if list.len() + 1 > n {
            let last = grown.last();
            assert(grown =~= after.push(last));
            assert(grown.to_multiset() =~= after.to_multiset().insert(last));
            assert forall|e: SizeEntry, i: int|
                #![trigger all.count(e), after[i]]
                0 <= i < after.len() && after.to_multiset().count(e) < all.count(e) implies after[i].size
                >= e.size by {
                assert(after[i] == grown[i]);
                if e != last {
                    assert(list.to_multiset().count(e) < from.count(e));
                    assert(list.len() == n);
                    assert(list[n - 1] == last);
                    assert(list[n - 1].size >= e.size);
                }
            }
            assert forall|e: SizeEntry| after.to_multiset().count(e) <= #[trigger] all.count(e) by {
                assert(grown.to_multiset().count(e) <= all.count(e));
            }
        } else {
            assert forall|e: SizeEntry, i: int|
                #![trigger all.count(e), after[i]]
                0 <= i < after.len() && after.to_multiset().count(e) < all.count(e) implies after[i].size
                >= e.size by {
                assert(list.to_multiset().count(e) < from.count(e));
                lemma_all_taken(list, from, e);
            }
        }
    }
}

/// A list as long as the collection that it was taken from leaves nothing out.
pub proof fn lemma_all_taken(list: Seq<SizeEntry>, from: Multiset<SizeEntry>, e: SizeEntry)
    requires
        list.len() == from.len(),
        forall|x: SizeEntry| list.to_multiset().count(x) <= #[trigger] from.count(x),
    ensures
        list.to_multiset().count(e) == from.count(e),
{
    broadcast use vstd::seq_lib::group_to_multiset_ensures;
    broadcast use vstd::multiset::group_multiset_axioms;

    let taken = list.to_multiset();
    assert(taken.len() == from.len());
    let rest = from.sub(taken);
    assert(from =~= taken.add(rest)) by {
        assert forall|x: SizeEntry| #[trigger] taken.add(rest).count(x) == from.count(x) by {
            assert(taken.count(x) <= from.count(x));
        }
    }
    assert(rest.len() == 0);
    assert(rest.count(e) == 0);
}

/// Keeps the `n` largest of `list` and `more`.
pub fn insert_all(list: &mut Vec<SizeEntry>, more: &Vec<SizeEntry>, n: usize)
    requires
        ranked(old(list)@),
        old(list)@.len() <= n,
    ensures
        is_top(final(list)@, old(list)@.to_multiset().add(more@.to_multiset()), n as nat),
{
    let ghost before = list@;
    let mut i: usize = 0;
    proof {
        broadcast use vstd::seq_lib::group_to_multiset_ensures;
        assert(before.to_multiset().len() == before.len());
        assert(more@.take(0) =~= Seq::<SizeEntry>::empty());
        assert(before.to_multiset().add(more@.take(0).to_multiset()) =~= before.to_multiset());
    }
    while i < more.len()
        invariant
            i <= more@.len(),
            is_top(list@, before.to_multiset().add(more@.take(i as int).to_multiset()), n as nat),
        decreases more@.len() - i,
    {
        let ghost was = list@;
        let entry: SizeEntry = more[i].clone();
        insert_top_n(list, entry, n);
        proof {
            broadcast use vstd::seq_lib::group_to_multiset_ensures;
            let pos = choose|pos: int|
                #![trigger is_slot(was, entry.size, pos)]
                is_slot(was, entry.size, pos) && list@ == with_entry(was, entry, pos, n as nat);
            let m = before.to_multiset().add(more@.take(i as int).to_multiset());
            law_insert_keeps_top(was, m, entry, pos, n as nat);
            assert(more@.take(i + 1) =~= more@.take(i as int).push(entry));
            assert(before.to_multiset().add(more@.take(i + 1).to_multiset()) =~= m.insert(entry));
        }
        i += 1;
    }
    assert(more@.take(more@.len() as int) =~= more@);
}

/// The largest of the largest are the largest of all: where `list` holds the `n` largest of
/// `from`, the `n` largest of `list` and `more` are those of `from` and `more`.
pub proof fn law_top_of_tops(
    list: Seq<SizeEntry>,
    from: Multiset<SizeEntry>,
    more: Multiset<SizeEntry>,
    r: Seq<SizeEntry>,
    n: nat,
)
    requires
        is_top(list, from, n),
        is_top(r, list.to_multiset().add(more), n),
    ensures
        is_top(r, from.add(more), n),
{
    broadcast use vstd::seq_lib::group_to_multiset_ensures;
    broadcast use vstd::multiset::group_multiset_axioms;

    let all = from.add(more);
    let kept = list.to_multiset().add(more);
    if from.len() <= n {
        assert(list.to_multiset() =~= from) by {
            assert forall|e: SizeEntry| list.to_multiset().count(e) == from.count(e) by {
                lemma_all_taken(list, from, e);
            }
        }
    } else {
        assert(list.to_multiset().len() == n);
        assert(kept.len() >= n);
        assert(r.len() == n);
        assert forall|e: SizeEntry| r.to_multiset().count(e) <= #[trigger] all.count(e) by {
            assert(r.to_multiset().count(e) <= kept.count(e));
            assert(list.to_multiset().count(e) <= from.count(e));
        }
        assert forall|e: SizeEntry, i: int|
            #![trigger all.count(e), r[i]]
            0 <= i < r.len() && r.to_multiset().count(e) < all.count(e) implies r[i].size >= e.size by {
            if r.to_multiset().count(e) < kept.count(e) {
                assert(r[i].size >= e.size);
            } else {
                assert(list.to_multiset().count(e) < from.count(e));
                if r[i].size < e.size {
                    assert forall|x: SizeEntry| list.to_multiset().count(x)
                        <= #[trigger] r.to_multiset().count(x) by {
                        if list.to_multiset().count(x) > r.to_multiset().count(x) {
                            assert(kept.count(x) > r.to_multiset().count(x));
                            assert(r[i].size >= x.size);
                            assert(list.contains(x));
                            let j = choose|j: int| 0 <= j < list.len() && list[j] == x;
                            assert(from.count(e) > 0);
                            assert(list[j].size >= e.size);
                        }
                    }
                    let last = r[i];
                    assert(r.contains(last));
                    lemma_all_taken(list, r.to_multiset(), last);
                    assert(list.contains(last));
                    let j = choose|j: int| 0 <= j < list.len() && list[j] == last;
                    assert(from.count(e) > 0);
                    assert(list[j].size >= e.size);
                }
            }
        }
    }
}

/// A list with room for them ranks all entries, each as often as it is there.
pub proof fn law_top_has_all(list: Seq<SizeEntry>, from: Multiset<SizeEntry>, n: nat)
    requires
        is_top(list, from, n),
        from.len() <= n,
    ensures
        list.to_multiset() == from,
{
    assert forall|e: SizeEntry| list.to_multiset().count(e) == #[trigger] from.count(e) by {
        lemma_all_taken(list, from, e);
    }
    assert(list.to_multiset() =~= from);
}

/// A list of the largest entries goes from the largest to the smallest, holds entries that are
/// there and no more than it may; and one that is not in it is no larger than any in a full list.
pub proof fn law_top_leaves_no_larger(
    list: Seq<SizeEntry>,
    from: Multiset<SizeEntry>,
    n: nat,
    e: SizeEntry,
)
    requires
        is_top(list, from, n),
    ensures
        list.len() <= n,
        forall|i: int, j: int|
            0 <= i < j < list.len() ==> (#[trigger] list[i]).size >= (#[trigger] list[j]).size,
        list.contains(e) ==> from.count(e) > 0,
        from.count(e) > 0 && !list.contains(e) ==> list.len() == n && forall|i: int|
            0 <= i < list.len() ==> (#[trigger] list[i]).size >= e.size,
{
    broadcast use vstd::seq_lib::group_to_multiset_ensures;
    broadcast use vstd::multiset::group_multiset_axioms;

    assert(list.to_multiset().count(e) <= from.count(e));
    if from.count(e) > 0 && !list.contains(e) {
        if from.len() <= n {
            lemma_all_taken(list, from, e);
        }
    }
}

/// An entry put into a ranked list stands behind no smaller and before no larger one. A full list
/// loses its last entry to it, unless it would be the last itself.
pub proof fn law_entry_finds_its_place(
    before: Seq<SizeEntry>,
    after: Seq<SizeEntry>,
    entry: SizeEntry,
    n: nat,
)
    requires
        ranked(before),
        before.len() <= n,
        takes_entry(before, after, entry, n),
    ensures
        ranked(after),
        before.len() < n ==> after.len() == before.len() + 1 && after.contains(entry),
        before.len() == n ==> after.len() == n,
        before.len() == n && n > 0 && entry.size > before.last().size ==> after.contains(entry),
        before.len() == n && n > 0 && entry.size < before.last().size ==> after == before,
{
    let pos = choose|pos: int|
        #![trigger is_slot(before, entry.size, pos)]
        is_slot(before, entry.size, pos) && after == with_entry(before, entry, pos, n);
    if pos < n {
        let grown = before.insert(pos, entry);
        assert(grown[pos] == entry);
        if before.len() < n {
            assert(after[pos] == entry);
        } else if entry.size > before.last().size {
            assert(after[pos] == entry);
        }
    }
}

} // verus!
