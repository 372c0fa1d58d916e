//! Matching of names against patterns with `?` and `*`.

use vstd::prelude::*;

use crate::text::chars_of;

verus! {

/// The pattern character `p` stands for exactly the one text character `c`.
///
/// A `*` in the text is an ordinary character, which a `*` of the pattern that meets it
/// takes literally.
pub open spec fn glob_one(p: char, c: char) -> bool {
    p == '?' || p == c
}

/// Whether `p` consists of stars only.
pub open spec fn all_stars(p: Seq<char>) -> bool {
    forall|i: int| 0 <= i < p.len() ==> p[i] == '*'
}

/// Whether the whole of `t` matches the pattern `p`: `?` stands for any one character and
/// `*` for any run of characters, also the empty one.
pub open spec fn glob_matches(p: Seq<char>, t: Seq<char>) -> bool
    decreases p.len(),
{
    if t.len() == 0 {
        all_stars(p)
    } else if p.len() == 0 {
        false
    } else if glob_one(p[0], t[0]) {
        glob_matches(p.skip(1), t.skip(1))
    } else if p[0] == '*' {
        exists|k: int| 0 <= k <= t.len() && glob_matches(p.skip(1), #[trigger] t.skip(k))
    } else {
        false
    }
}

/// The rest of the pattern from `i` matches the rest of the text from `j`.
spec fn tail_matches(p: Seq<char>, t: Seq<char>, i: int, j: int) -> bool {
    glob_matches(p.skip(i), t.skip(j))
}

/// The pattern part `p[i..end]` meets the text from `j` on character for character.
spec fn aligned(p: Seq<char>, t: Seq<char>, i: int, end: int, j: int) -> bool {
    &&& 0 <= i <= end <= p.len()
    &&& 0 <= j
    &&& j + (end - i) <= t.len()
    &&& forall|m: int| i <= m < end ==> #[trigger] glob_one(p[m], t[j + (m - i)])
}

/// The pattern from `i` on matches the text from some position after `from`.
spec fn matches_after(p: Seq<char>, t: Seq<char>, i: int, from: int) -> bool {
    exists|k: int| from < k <= t.len() && #[trigger] tail_matches(p, t, i, k)
}

proof fn lemma_fewer_stars(p: Seq<char>, i: int)
    requires
        0 <= i < p.len(),
        all_stars(p.skip(i)),
    ensures
        p[i] == '*',
        all_stars(p.skip(i + 1)),
{
    let rest = p.skip(i + 1);
    assert(p.skip(i)[0] == '*');
    assert forall|m: int| 0 <= m < rest.len() implies rest[m] == '*' by {
        assert(p.skip(i)[m + 1] == '*');
    }
}

proof fn lemma_tail_step(p: Seq<char>, t: Seq<char>, i: int, j: int)
    requires
        0 <= i <= p.len(),
        0 <= j <= t.len(),
    ensures
        j == t.len() ==> tail_matches(p, t, i, j) == all_stars(p.skip(i)),
        j < t.len() && i == p.len() ==> !tail_matches(p, t, i, j),
        j < t.len() && i < p.len() && glob_one(p[i], t[j]) ==> tail_matches(p, t, i, j)
            == tail_matches(p, t, i + 1, j + 1),
        j < t.len() && i < p.len() && !glob_one(p[i], t[j]) && p[i] == '*' ==> tail_matches(
            p,
            t,
            i,
            j,
        ) == (exists|k: int| j <= k <= t.len() && #[trigger] tail_matches(p, t, i + 1, k)),
        j < t.len() && i < p.len() && !glob_one(p[i], t[j]) && p[i] != '*' ==> !tail_matches(
            p,
            t,
            i,
            j,
        ),
{
    let ps = p.skip(i);
    let ts = t.skip(j);
    if i < p.len() {
        assert(ps.skip(1) =~= p.skip(i + 1));
    }
    if j < t.len() {
        assert(ts.skip(1) =~= t.skip(j + 1));
    }
    if j < t.len() && i < p.len() && !glob_one(p[i], t[j]) && p[i] == '*' {
        assert forall|k: int| 0 <= k <= ts.len() implies #[trigger] ts.skip(k) =~= t.skip(j + k) by {}
        if tail_matches(p, t, i, j) {
            let k = choose|k: int| 0 <= k <= ts.len() && glob_matches(ps.skip(1), #[trigger] ts.skip(k));
            assert(ts.skip(k) =~= t.skip(j + k));
            assert(tail_matches(p, t, i + 1, j + k));
        }
        if exists|k: int| j <= k <= t.len() && #[trigger] tail_matches(p, t, i + 1, k) {
            let k = choose|k: int| j <= k <= t.len() && #[trigger] tail_matches(p, t, i + 1, k);
            assert(ts.skip(k - j) =~= t.skip(k));
            assert(glob_matches(ps.skip(1), ts.skip(k - j)));
        }
    }
}

/// Where `p[i..end]` lies over the text at `j` character for character, every way to match
/// the pattern from `i` on at `j` or later reaches `end` at `j + (end - i)` or later.
proof fn lemma_no_shorter(p: Seq<char>, t: Seq<char>, i: int, end: int, j: int, from: int) -> (at: int)
    requires
        aligned(p, t, i, end, j),
        j <= from <= t.len(),
        tail_matches(p, t, i, from),
    ensures
        j + (end - i) <= at <= t.len(),
        tail_matches(p, t, end, at),
    decreases end - i,
{
    if i == end {
        from
    } else {
        lemma_tail_step(p, t, i, from);
        assert(glob_one(p[i], t[j + (i - i)]));
        assert(aligned(p, t, i + 1, end, j + 1)) by {
            assert forall|m: int| i + 1 <= m < end implies #[trigger] glob_one(
                p[m],
                t[j + 1 + (m - (i + 1))],
            ) by {
                assert(glob_one(p[m], t[j + (m - i)]));
            }
        }
        if from == t.len() {
            lemma_fewer_stars(p, i);
            lemma_tail_step(p, t, i + 1, from);
            lemma_no_shorter(p, t, i + 1, end, j + 1, from)
        } else if glob_one(p[i], t[from]) {
            lemma_no_shorter(p, t, i + 1, end, j + 1, from + 1)
        } else {
            let k = choose|k: int| from <= k <= t.len() && #[trigger] tail_matches(p, t, i + 1, k);
            assert(from != j);
            lemma_no_shorter(p, t, i + 1, end, j + 1, k)
        }
    }
}

/// A star that opens a run at `at` covers every way in which an earlier star could have gone on.
proof fn lemma_star_takes_over(p: Seq<char>, t: Seq<char>, i: int, at: int)
    requires
        0 <= i < p.len(),
        p[i] == '*',
        0 <= at <= t.len(),
        tail_matches(p, t, i, at),
    ensures
        exists|k: int| at <= k <= t.len() && #[trigger] tail_matches(p, t, i + 1, k),
{
    lemma_tail_step(p, t, i, at);
    if at == t.len() {
        lemma_fewer_stars(p, i);
        lemma_tail_step(p, t, i + 1, at);
        assert(tail_matches(p, t, i + 1, at));
    } else if glob_one(p[i], t[at]) {
        assert(tail_matches(p, t, i + 1, at + 1));
    }
}

/// A pattern without wildcards matches itself and nothing else.
pub proof fn law_plain_pattern(p: Seq<char>, t: Seq<char>)
    requires
        !p.contains('*'),
        !p.contains('?'),
    ensures
        glob_matches(p, t) == (p == t),
    decreases p.len(),
{
    if p.len() == 0 {
        assert(t.len() == 0 ==> t =~= p);
    } else {
        assert(p.contains(p[0]));
        if t.len() > 0 && p[0] == t[0] {
            assert forall|c: char| p.skip(1).contains(c) implies p.contains(c) by {
                let i = choose|i: int| 0 <= i < p.skip(1).len() && p.skip(1)[i] == c;
                assert(p[i + 1] == c);
            }
            law_plain_pattern(p.skip(1), t.skip(1));
            if p.skip(1) == t.skip(1) {
                assert forall|i: int| 0 <= i < p.len() implies p[i] == t[i] by {
                    if i > 0 {
                        assert(p[i] == p.skip(1)[i - 1]);
                        assert(t[i] == t.skip(1)[i - 1]);
                    }
                }
                assert(p =~= t);
            }
        }
    }
}

/// In a text that starts with no star, a leading `*` of the pattern stands for any run of
/// characters.
pub proof fn law_star_is_any_run(p: Seq<char>, t: Seq<char>)
    requires
        p.len() > 0,
        p[0] == '*',
        t.len() > 0 ==> t[0] != '*',
    ensures
        glob_matches(p, t) == (exists|k: int|
            0 <= k <= t.len() && glob_matches(p.skip(1), #[trigger] t.skip(k))),
{
    if t.len() == 0 {
        assert(p.skip(0) =~= p);
        assert(t.skip(0) =~= t);
        if all_stars(p) {
            lemma_fewer_stars(p, 0);
            assert(glob_matches(p.skip(1), t.skip(0)));
        }
        if exists|k: int| 0 <= k <= t.len() && glob_matches(p.skip(1), #[trigger] t.skip(k)) {
            assert forall|i: int| 0 <= i < p.len() implies p[i] == '*' by {
                if i > 0 {
                    assert(p.skip(1)[i - 1] == '*');
                }
            }
        }
    }
}

/// Whether the name `text` matches `pattern`.
pub fn glob_match(pattern: &str, text: &str) -> (r: bool)
    ensures
        r == glob_matches(pattern@, text@),
{
    let p: Vec<char> = chars_of(pattern);
    let t: Vec<char> = chars_of(text);
    let mut pi: usize = 0;
    let mut ti: usize = 0;
    let mut star: Option<usize> = None;
    let mut star_ti: usize = 0;
    assert(p@.skip(0) =~= p@);
    assert(t@.skip(0) =~= t@);
    while ti < t.len()
        invariant
            p@ == pattern@,
            t@ == text@,
            pi <= p.len(),
            ti <= t.len(),
            star is None ==> glob_matches(p@, t@) == tail_matches(p@, t@, pi as int, ti as int),
            star matches Some(s) ==> {
                &&& s < pi
                &&& p[s as int] == '*'
                &&& star_ti <= ti
                &&& ti - star_ti == pi - (s + 1)
                &&& aligned(p@, t@, s + 1, pi as int, star_ti as int)
                &&& glob_matches(p@, t@) == (tail_matches(p@, t@, pi as int, ti as int)
                    || matches_after(p@, t@, s + 1, star_ti as int))
            },
        decreases
                t.len() - (if star is Some { star_ti as int } else { -1 }),
                p.len() - pi,
    {
        proof {
            lemma_tail_step(p@, t@, pi as int, ti as int);
        }
        if pi < p.len() && (p[pi] == '?' || p[pi] == t[ti]) {
            assert(glob_one(p[pi as int], t[ti as int]));
            proof {
                if let Some(s) = star {
                    assert forall|m: int| s + 1 <= m < pi + 1 implies #[trigger] glob_one(
                        p[m],
                        t[star_ti + (m - (s + 1))],
                    ) by {
                        if m < pi {
                            assert(glob_one(p@[m], t@[star_ti + (m - (s + 1))]));
                        }
                    }
                }
            }
            pi += 1;
            ti += 1;
            assert(star matches Some(s) ==> aligned(p@, t@, s + 1, pi as int, star_ti as int));
        } else if pi < p.len() && p[pi] == '*' {
            proof {
                if let Some(s) = star {
                    if matches_after(p@, t@, s + 1, star_ti as int) {
                        let k = choose|k: int|
                            star_ti < k <= t.len() && #[trigger] tail_matches(p@, t@, s + 1, k);
                        let at = lemma_no_shorter(p@, t@, s + 1, pi as int, star_ti as int, k);
                        lemma_star_takes_over(p@, t@, pi as int, at);
                    }
                }
            }
            star = Some(pi);
            star_ti = ti;
            pi += 1;
            assert(glob_matches(p@, t@) == (tail_matches(p@, t@, pi as int, ti as int)
                    || matches_after(p@, t@, pi as int, star_ti as int)));
        } else if let Some(s) = star {
            pi = s + 1;
            star_ti += 1;
            ti = star_ti;
            assert(glob_matches(p@, t@) == (tail_matches(p@, t@, pi as int, ti as int)
                    || matches_after(p@, t@, pi as int, star_ti as int)));
        } else {
            return false;
        }
    }
    proof {
        lemma_tail_step(p@, t@, pi as int, ti as int);
        if let Some(s) = star {
            if matches_after(p@, t@, s + 1, star_ti as int) {
                let k = choose|k: int| star_ti < k <= t.len() && #[trigger] tail_matches(p@, t@, s + 1, k);
                let at = lemma_no_shorter(p@, t@, s + 1, pi as int, star_ti as int, k);
            }
        }
    }
    let ghost rest = pi as int;
    while pi < p.len() && p[pi] == '*'
        invariant
            0 <= rest <= pi <= p.len(),
            forall|m: int| rest <= m < pi ==> p[m] == '*',
        decreases p.len() - pi,
    {
        pi += 1;
    }
    proof {
        if pi < p.len() {
            assert(p@.skip(rest)[pi - rest] != '*');
        }
    }
    pi == p.len()
}

/// `at` lays the pattern `p` over the whole of `t`: the character `i` of the pattern stands for
/// `t[at[i]..at[i + 1]]`, a `*` for any run, a `?` for any one character, and every other for
/// itself.
pub open spec fn lays_over(p: Seq<char>, t: Seq<char>, at: Seq<int>) -> bool {
    &&& at.len() == p.len() + 1
    &&& at[0] == 0
    &&& at[p.len() as int] == t.len()
    &&& forall|i: int|
        0 <= i < p.len() ==> {
            &&& 0 <= #[trigger] at[i] <= at[i + 1] <= t.len()
            &&& p[i] == '*' || at[i + 1] == at[i] + 1
            &&& p[i] == '*' || p[i] == '?' || p[i] == t[at[i]]
        }
}

/// A name matches a pattern only where the pattern can be laid over the whole of it, and a name
/// without stars wherever it can.
pub proof fn law_match_is_a_layout(p: Seq<char>, t: Seq<char>)
    ensures
        glob_matches(p, t) ==> exists|at: Seq<int>| lays_over(p, t, at),
        !t.contains('*') && (exists|at: Seq<int>| lays_over(p, t, at)) ==> glob_matches(p, t),
{
    if glob_matches(p, t) {
        let at = lemma_layout(p, t);
        assert(lays_over(p, t, at));
    }
    if !t.contains('*') && exists|at: Seq<int>| lays_over(p, t, at) {
        let at = choose|at: Seq<int>| lays_over(p, t, at);
        lemma_laid_over(p, t, at);
    }
}

proof fn lemma_layout(p: Seq<char>, t: Seq<char>) -> (at: Seq<int>)
    requires
        glob_matches(p, t),
    ensures
        lays_over(p, t, at),
    decreases p.len(),
{
    if p.len() == 0 {
        seq![0int]
    } else {
        let k = if t.len() == 0 {
            assert(p.skip(0) =~= p);
            lemma_fewer_stars(p, 0);
            assert(t.skip(0) =~= t);
            0
        } else if glob_one(p[0], t[0]) {
            1
        } else {
            choose|k: int| 0 <= k <= t.len() && glob_matches(p.skip(1), #[trigger] t.skip(k))
        };
        let rest = lemma_layout(p.skip(1), t.skip(k));
        let at = seq![0int] + rest.map_values(|i: int| i + k);
        assert(at[0] == 0);
        assert forall|i: int| 0 <= i < p.len() implies 0 <= #[trigger] at[i] <= at[i + 1] <= t.len()
            && (p[i] == '*' || at[i + 1] == at[i] + 1) && (p[i] == '*' || p[i] == '?' || p[i]
            == t[at[i]]) by {
            assert(at[i + 1] == rest[i] + k);
            if i > 0 {
                assert(0 <= rest[i - 1] <= rest[i] <= t.len() - k);
                assert(p[i] == p.skip(1)[i - 1]);
                if rest[i - 1] < t.len() - k {
                    assert(t.skip(k)[rest[i - 1]] == t[at[i]]);
                }
            }
        }
        at
    }
}

proof fn lemma_laid_over(p: Seq<char>, t: Seq<char>, at: Seq<int>)
    requires
        !t.contains('*'),
        lays_over(p, t, at),
    ensures
        glob_matches(p, t),
    decreases p.len(),
{
    if p.len() > 0 {
        assert(0 <= at[0] <= at[1] <= t.len());
        let k = at[1];
        let q = p.skip(1);
        let u = t.skip(k);
        let rest = at.skip(1).map_values(|i: int| i - k);
        assert forall|i: int| 0 <= i < q.len() implies 0 <= #[trigger] rest[i] <= rest[i + 1]
            <= u.len() && (q[i] == '*' || rest[i + 1] == rest[i] + 1) && (q[i] == '*' || q[i] == '?'
            || q[i] == u[rest[i]]) by {
            lemma_rises(p, t, at, i + 1);
            assert(rest[i] == at[i + 1] - k && rest[i + 1] == at[i + 2] - k);
            assert(q[i] == p[i + 1]);
            assert(0 <= at[i + 1] <= at[i + 2] <= t.len());
        }
        lemma_rises(p, t, at, p.len() as int);
        assert(lays_over(q, u, rest));
        assert forall|c: char| u.contains(c) implies t.contains(c) by {
            let i = choose|i: int| 0 <= i < u.len() && u[i] == c;
            assert(t[i + k] == c);
        }
        lemma_laid_over(q, u, rest);
        if p[0] == '*' {
            assert(t.len() > 0 ==> t.contains(t[0]));
            law_star_is_any_run(p, t);
            assert(glob_matches(p.skip(1), t.skip(k)));
        }
    }
}

proof fn lemma_rises(p: Seq<char>, t: Seq<char>, at: Seq<int>, i: int)
    requires
        lays_over(p, t, at),
        1 <= i <= p.len(),
    ensures
        at[1] <= at[i],
    decreases i,
{
    if i > 1 {
        lemma_rises(p, t, at, i - 1);
        assert(at[i - 1] <= at[i - 1 + 1]);
    }
}

/// A star of the pattern that meets a star in the name takes it for itself, as any other
/// character does.
pub proof fn law_star_meets_star(p: Seq<char>, t: Seq<char>)
    ensures
        glob_matches(seq!['*'] + p, seq!['*'] + t) == glob_matches(p, t),
{
    assert((seq!['*'] + p).skip(1) =~= p);
    assert((seq!['*'] + t).skip(1) =~= t);
    assert((seq!['*'] + p)[0] == '*' && (seq!['*'] + t)[0] == '*');
}

/// A character of the pattern that is no star stands for one character of the name: a `?` for
/// any, and every other for itself. No name is left over, and nothing is read into an empty one.
pub proof fn law_one_by_one(c: char, p: Seq<char>, d: char, t: Seq<char>)
    requires
        c != '*',
    ensures
        glob_matches(seq![c] + p, seq![d] + t) == ((c == '?' || c == d) && glob_matches(p, t)),
        !glob_matches(Seq::empty(), seq![d] + t),
        !glob_matches(seq![c] + p, Seq::empty()),
{
    let q = seq![c] + p;
    assert(q.skip(1) =~= p);
    assert((seq![d] + t).skip(1) =~= t);
    assert(q[0] == c && (seq![d] + t)[0] == d);
}

} // verus!
