//! Ranking of scored entries: highest score first, and entries of equal score
//! in the order in which they came.
//!
//! An entry is a pair `(score, index)`. A ranking of `e` is an arrangement
//! that is sorted by descending score and that keeps, for every score, the
//! entries with that score in their order in `e`. There is exactly one such
//! arrangement ([`lemma_ranking_unique`]), and [`ranked`] builds it
//! ([`lemma_ranked_is_ranking`]).
use vstd::prelude::*;

verus! {

/// The entries of `s` whose score is `c`, in their order in `s`.
pub open spec fn with_score(s: Seq<(int, int)>, c: int) -> Seq<(int, int)>
    decreases s.len(),
{
    if s.len() == 0 {
        Seq::empty()
    } else if s[0].0 == c {
        seq![s[0]] + with_score(s.drop_first(), c)
    } else {
        with_score(s.drop_first(), c)
    }
}

/// The entries of `s` whose score is not `c`, in their order in `s`.
pub open spec fn without_score(s: Seq<(int, int)>, c: int) -> Seq<(int, int)>
    decreases s.len(),
{
    if s.len() == 0 {
        Seq::empty()
    } else if s[0].0 == c {
        without_score(s.drop_first(), c)
    } else {
        seq![s[0]] + without_score(s.drop_first(), c)
    }
}

/// The highest score in a non-empty `s`.
pub open spec fn top_score(s: Seq<(int, int)>) -> int
    decreases s.len(),
{
    if s.len() <= 1 {
        if s.len() == 0 {
            0
        } else {
            s[0].0
        }
    } else {
        let rest = top_score(s.drop_first());
        if s[0].0 >= rest {
            s[0].0
        } else {
            rest
        }
    }
}

/// Scores never increase along `s`.
pub open spec fn sorted_desc(s: Seq<(int, int)>) -> bool {
    forall|i: int, j: int| 0 <= i < j < s.len() ==> #[trigger] s[i].0 >= #[trigger] s[j].0
}

/// `r` is `e` ranked: sorted by descending score, and for every score the
/// entries with that score appear in the same order as in `e`.
pub open spec fn is_ranking(e: Seq<(int, int)>, r: Seq<(int, int)>) -> bool {
    &&& sorted_desc(r)
    &&& forall|c: int| #[trigger] with_score(r, c) == with_score(e, c)
}

/// `e` ranked: the entries with the highest score in their order, then the
/// rest ranked in the same way.
pub open spec fn ranked(e: Seq<(int, int)>) -> Seq<(int, int)>
    decreases e.len(),
{
    if e.len() == 0 {
        e
    } else {
        proof {
            lemma_top_score_bounds(e);
            lemma_split_len(e, top_score(e));
            let k = choose|k: int| 0 <= k < e.len() && e[k].0 == top_score(e);
            lemma_with_score_nonempty(e, top_score(e), k);
        }
        with_score(e, top_score(e)) + ranked(without_score(e, top_score(e)))
    }
}

/// The entries of `s` after exchanging the neighbours at `j` and `j + 1`.
pub open spec fn swap_next(s: Seq<(int, int)>, j: int) -> Seq<(int, int)> {
    s.update(j, s[j + 1]).update(j + 1, s[j])
}

/// Every entry of `r` is an entry of `e`.
pub open spec fn drawn_from(r: Seq<(int, int)>, e: Seq<(int, int)>) -> bool {
    forall|k: int| 0 <= k < r.len() ==> e.contains(#[trigger] r[k])
}

pub proof fn lemma_split_len(s: Seq<(int, int)>, c: int)
    ensures
        with_score(s, c).len() + without_score(s, c).len() == s.len(),
    decreases s.len(),
{
    if s.len() > 0 {
        lemma_split_len(s.drop_first(), c);
    }
}

pub proof fn lemma_top_score_bounds(s: Seq<(int, int)>)
    requires
        s.len() > 0,
    ensures
        exists|k: int| 0 <= k < s.len() && s[k].0 == top_score(s),
        forall|k: int| 0 <= k < s.len() ==> #[trigger] s[k].0 <= top_score(s),
    decreases s.len(),
{
    if s.len() == 1 {
        assert(s[0].0 == top_score(s));
    } else {
        let t = s.drop_first();
        lemma_top_score_bounds(t);
        let k = choose|k: int| 0 <= k < t.len() && t[k].0 == top_score(t);
        if s[0].0 >= top_score(t) {
            assert(s[0].0 == top_score(s));
        } else {
            assert(s[k + 1] == t[k]);
            assert(s[k + 1].0 == top_score(s));
        }
        assert forall|j: int| 0 <= j < s.len() implies #[trigger] s[j].0 <= top_score(s) by {
            if j > 0 {
                assert(s[j] == t[j - 1]);
            }
        }
    }
}

/// An entry with score `c` makes the group of `c` non-empty.
pub proof fn lemma_with_score_nonempty(s: Seq<(int, int)>, c: int, k: int)
    requires
        0 <= k < s.len(),
        s[k].0 == c,
    ensures
        with_score(s, c).len() > 0,
    decreases s.len(),
{
    if k > 0 && s[0].0 != c {
        assert(s.drop_first()[k - 1] == s[k]);
        lemma_with_score_nonempty(s.drop_first(), c, k - 1);
    }
}

/// The group of `c` holds entries of `s` with score `c` only.
pub proof fn lemma_with_score_members(s: Seq<(int, int)>, c: int)
    ensures
        forall|k: int|
            0 <= k < with_score(s, c).len() ==> (#[trigger] with_score(s, c)[k]).0 == c
                && s.contains(with_score(s, c)[k]),
    decreases s.len(),
{
    if s.len() > 0 {
        let t = s.drop_first();
        lemma_with_score_members(t, c);
        let w = with_score(s, c);
        assert forall|k: int| 0 <= k < w.len() implies (#[trigger] w[k]).0 == c && s.contains(
            w[k],
        ) by {
            if s[0].0 == c {
                if k == 0 {
                    assert(w[0] == s[0]);
                } else {
                    assert(w[k] == with_score(t, c)[k - 1]);
                    let j = choose|j: int| 0 <= j < t.len() && t[j] == w[k];
                    assert(s[j + 1] == t[j]);
                }
            } else {
                assert(w[k] == with_score(t, c)[k]);
                let j = choose|j: int| 0 <= j < t.len() && t[j] == w[k];
                assert(s[j + 1] == t[j]);
            }
        }
    }
}

/// The entries left after taking out the group of `c` come from `s` and do not
/// have score `c`.
pub proof fn lemma_without_score_members(s: Seq<(int, int)>, c: int)
    ensures
        forall|k: int|
            0 <= k < without_score(s, c).len() ==> (#[trigger] without_score(s, c)[k]).0 != c
                && s.contains(without_score(s, c)[k]),
    decreases s.len(),
{
    if s.len() > 0 {
        let t = s.drop_first();
        lemma_without_score_members(t, c);
        let w = without_score(s, c);
        assert forall|k: int| 0 <= k < w.len() implies (#[trigger] w[k]).0 != c && s.contains(
            w[k],
        ) by {
            if s[0].0 != c {
                if k == 0 {
                    assert(w[0] == s[0]);
                } else {
                    assert(w[k] == without_score(t, c)[k - 1]);
                    let j = choose|j: int| 0 <= j < t.len() && t[j] == w[k];
                    assert(s[j + 1] == t[j]);
                }
            } else {
                assert(w[k] == without_score(t, c)[k]);
                let j = choose|j: int| 0 <= j < t.len() && t[j] == w[k];
                assert(s[j + 1] == t[j]);
            }
        }
    }
}

/// The group of `c` in a single entry.
pub proof fn lemma_with_score_single(x: (int, int), c: int)
    ensures
        with_score(seq![x], c) == if x.0 == c {
            seq![x]
        } else {
            Seq::<(int, int)>::empty()
        },
{
    assert(seq![x].drop_first() =~= Seq::<(int, int)>::empty());
    reveal_with_fuel(with_score, 2);
    if x.0 == c {
        assert(seq![x] + Seq::<(int, int)>::empty() =~= seq![x]);
    }
}

/// Grouping distributes over concatenation.
pub proof fn lemma_with_score_add(a: Seq<(int, int)>, b: Seq<(int, int)>, c: int)
    ensures
        with_score(a + b, c) == with_score(a, c) + with_score(b, c),
    decreases a.len(),
{
    if a.len() == 0 {
        assert(a + b =~= b);
        assert(with_score(a, c) + with_score(b, c) =~= with_score(b, c));
    } else {
        assert((a + b).drop_first() =~= a.drop_first() + b);
        assert((a + b)[0] == a[0]);
        lemma_with_score_add(a.drop_first(), b, c);
        if a[0].0 == c {
            assert(seq![a[0]] + (with_score(a.drop_first(), c) + with_score(b, c)) =~= (seq![a[0]]
                + with_score(a.drop_first(), c)) + with_score(b, c));
        }
    }
}

/// Taking a group of a group.
pub proof fn lemma_with_score_twice(s: Seq<(int, int)>, m: int, c: int)
    ensures
        with_score(with_score(s, m), c) == if c == m {
            with_score(s, m)
        } else {
            Seq::<(int, int)>::empty()
        },
    decreases s.len(),
{
    if s.len() > 0 {
        let t = s.drop_first();
        lemma_with_score_twice(t, m, c);
        if s[0].0 == m {
            lemma_with_score_add(seq![s[0]], with_score(t, m), c);
            let one = seq![s[0]];
            lemma_with_score_single(s[0], c);
            if c == m {
            } else {
                assert(with_score(one, c) + with_score(with_score(t, m), c) =~= Seq::<
                    (int, int),
                >::empty());
            }
        }
    }
}

/// Taking a group of what is left after removing another group.
pub proof fn lemma_with_score_of_without(s: Seq<(int, int)>, m: int, c: int)
    ensures
        with_score(without_score(s, m), c) == if c == m {
            Seq::<(int, int)>::empty()
        } else {
            with_score(s, c)
        },
    decreases s.len(),
{
    if s.len() > 0 {
        let t = s.drop_first();
        lemma_with_score_of_without(t, m, c);
        if s[0].0 != m {
            let one = seq![s[0]];
            lemma_with_score_add(one, without_score(t, m), c);
            lemma_with_score_single(s[0], c);
            if s[0].0 == c {
            } else {
                assert(with_score(one, c) + with_score(without_score(t, m), c) =~= with_score(
                    without_score(t, m),
                    c,
                ));
            }
        }
    }
}

/// The entries of a ranking of `e` are entries of `e`.
pub proof fn lemma_ranking_drawn_from(e: Seq<(int, int)>, r: Seq<(int, int)>)
    requires
        forall|c: int| #[trigger] with_score(r, c) == with_score(e, c),
    ensures
        drawn_from(r, e),
{
    assert forall|k: int| 0 <= k < r.len() implies e.contains(#[trigger] r[k]) by {
        let c = r[k].0;
        lemma_with_score_members(r, c);
        lemma_with_score_members(e, c);
        lemma_with_score_in(r, c, k);
        let w = with_score(r, c);
        let i = choose|i: int| 0 <= i < w.len() && w[i] == r[k];
        assert(with_score(e, c)[i] == r[k]);
    }
}

/// An entry of `s` with score `c` appears in the group of `c`.
pub proof fn lemma_with_score_in(s: Seq<(int, int)>, c: int, k: int)
    requires
        0 <= k < s.len(),
        s[k].0 == c,
    ensures
        exists|i: int| 0 <= i < with_score(s, c).len() && with_score(s, c)[i] == s[k],
    decreases s.len(),
{
    let t = s.drop_first();
    if k == 0 {
        assert(with_score(s, c)[0] == s[0]);
    } else {
        assert(t[k - 1] == s[k]);
        lemma_with_score_in(t, c, k - 1);
        let i = choose|i: int| 0 <= i < with_score(t, c).len() && with_score(t, c)[i] == s[k];
        if s[0].0 == c {
            assert(with_score(s, c)[i + 1] == s[k]);
        } else {
            assert(with_score(s, c)[i] == s[k]);
        }
    }
}

/// [`ranked`] is a ranking.
pub proof fn lemma_ranked_is_ranking(e: Seq<(int, int)>)
    ensures
        is_ranking(e, ranked(e)),
    decreases e.len(),
{
    if e.len() == 0 {
        assert(sorted_desc(ranked(e)));
    } else {
        let m = top_score(e);
        let w = with_score(e, m);
        let x = without_score(e, m);
        lemma_top_score_bounds(e);
        lemma_split_len(e, m);
        let k0 = choose|k: int| 0 <= k < e.len() && e[k].0 == m;
        lemma_with_score_nonempty(e, m, k0);
        lemma_ranked_is_ranking(x);
        let rx = ranked(x);
        let r = ranked(e);
        assert(r == w + rx);
        assert forall|c: int| #[trigger] with_score(r, c) == with_score(e, c) by {
            lemma_with_score_add(w, rx, c);
            lemma_with_score_twice(e, m, c);
            lemma_with_score_of_without(e, m, c);
            if c == m {
                assert(w + Seq::<(int, int)>::empty() =~= w);
            } else {
                assert(Seq::<(int, int)>::empty() + with_score(e, c) =~= with_score(e, c));
            }
        }
        lemma_with_score_members(e, m);
        lemma_without_score_members(e, m);
        lemma_ranking_drawn_from(x, rx);
        assert forall|i: int, j: int| 0 <= i < j < r.len() implies #[trigger] r[i].0 >= #[trigger] r[j].0 by {
            if i < w.len() {
                assert(r[i] == w[i]);
                assert(r[i].0 == m);
                if j < w.len() {
                    assert(r[j] == w[j]);
                } else {
                    assert(r[j] == rx[j - w.len()]);
                    assert(x.contains(rx[j - w.len()]));
                    let q = choose|q: int| 0 <= q < x.len() && x[q] == rx[j - w.len()];
                    let p = choose|p: int| 0 <= p < e.len() && e[p] == x[q];
                    assert(e[p].0 <= m);
                }
            } else {
                assert(r[i] == rx[i - w.len()]);
                assert(r[j] == rx[j - w.len()]);
            }
        }
    }
}

/// Two rankings of the same entries are equal.
pub proof fn lemma_ranking_unique(e: Seq<(int, int)>, r1: Seq<(int, int)>, r2: Seq<(int, int)>)
    requires
        is_ranking(e, r1),
        is_ranking(e, r2),
    ensures
        r1 == r2,
{
    lemma_same_groups_equal(r1, r2);
}

proof fn lemma_same_groups_equal(r1: Seq<(int, int)>, r2: Seq<(int, int)>)
    requires
        sorted_desc(r1),
        sorted_desc(r2),
        forall|c: int| #[trigger] with_score(r1, c) == with_score(r2, c),
    ensures
        r1 == r2,
    decreases r1.len(),
{
    if r1.len() == 0 || r2.len() == 0 {
        if r1.len() > 0 {
            lemma_with_score_nonempty(r1, r1[0].0, 0);
            assert(with_score(r2, r1[0].0) == with_score(r1, r1[0].0));
        }
        if r2.len() > 0 {
            lemma_with_score_nonempty(r2, r2[0].0, 0);
            assert(with_score(r1, r2[0].0) == with_score(r2, r2[0].0));
        }
        assert(r1 =~= r2);
    } else {
        let a = r1[0].0;
        let b = r2[0].0;
        lemma_with_score_members(r1, b);
        lemma_with_score_members(r2, a);
        assert(with_score(r1, b) == with_score(r2, b));
        assert(with_score(r2, a) == with_score(r1, a));
        assert(with_score(r2, b)[0] == r2[0]);
        assert(with_score(r1, a)[0] == r1[0]);
        let p = choose|p: int| 0 <= p < r1.len() && r1[p] == with_score(r1, b)[0];
        let q = choose|q: int| 0 <= q < r2.len() && r2[q] == with_score(r2, a)[0];
        if p > 0 {
            assert(r1[0].0 >= r1[p].0);
        }
        if q > 0 {
            assert(r2[0].0 >= r2[q].0);
        }
        assert(a == b);
        assert(r1[0] == r2[0]);
        let t1 = r1.drop_first();
        let t2 = r2.drop_first();
        assert forall|c: int| #[trigger] with_score(t1, c) == with_score(t2, c) by {
            assert(with_score(r1, c) == with_score(r2, c));
            if c == a {
                assert(with_score(t1, c) =~= with_score(r1, c).drop_first());
                assert(with_score(t2, c) =~= with_score(r2, c).drop_first());
            }
        }
        assert forall|i: int, j: int| 0 <= i < j < t1.len() implies #[trigger] t1[i].0 >= #[trigger] t1[j].0 by {
            assert(r1[i + 1].0 >= r1[j + 1].0);
        }
        assert forall|i: int, j: int| 0 <= i < j < t2.len() implies #[trigger] t2[i].0 >= #[trigger] t2[j].0 by {
            assert(r2[i + 1].0 >= r2[j + 1].0);
        }
        lemma_same_groups_equal(t1, t2);
        assert forall|k: int| 0 <= k < r1.len() implies r1[k] == r2[k] by {
            if k > 0 {
                assert(r1[k] == t1[k - 1]);
                assert(r2[k] == t2[k - 1]);
            }
        }
        assert(r1 =~= r2);
    }
}

/// Exchanging neighbours of different score keeps every group.
pub proof fn lemma_swap_keeps_groups(s: Seq<(int, int)>, j: int, c: int)
    requires
        0 <= j,
        j + 1 < s.len(),
        s[j].0 != s[j + 1].0,
    ensures
        with_score(swap_next(s, j), c) == with_score(s, c),
    decreases j,
{
    let t = swap_next(s, j);
    if j == 0 {
        let rest = s.drop_first().drop_first();
        assert(t.drop_first().drop_first() =~= rest);
        assert(t[0] == s[1] && t[1] == s[0]);
        assert(s =~= seq![s[0]] + (seq![s[1]] + rest));
        assert(t =~= seq![s[1]] + (seq![s[0]] + rest));
        lemma_with_score_add(seq![s[0]], seq![s[1]] + rest, c);
        lemma_with_score_add(seq![s[1]], rest, c);
        lemma_with_score_add(seq![s[1]], seq![s[0]] + rest, c);
        lemma_with_score_add(seq![s[0]], rest, c);
        lemma_with_score_single(s[0], c);
        lemma_with_score_single(s[1], c);
        if s[0].0 == c {
            assert(seq![s[0]] + (Seq::<(int, int)>::empty() + with_score(rest, c)) =~= Seq::<
                (int, int),
            >::empty() + (seq![s[0]] + with_score(rest, c)));
        } else if s[1].0 == c {
            assert(Seq::<(int, int)>::empty() + (seq![s[1]] + with_score(rest, c)) =~= seq![s[1]]
                + (Seq::<(int, int)>::empty() + with_score(rest, c)));
        } else {
            assert(Seq::<(int, int)>::empty() + (Seq::<(int, int)>::empty() + with_score(rest, c))
                =~= Seq::<(int, int)>::empty() + (Seq::<(int, int)>::empty() + with_score(
                rest,
                c,
            )));
        }
    } else {
        assert(t.drop_first() =~= swap_next(s.drop_first(), j - 1));
        assert(t[0] == s[0]);
        lemma_swap_keeps_groups(s.drop_first(), j - 1, c);
    }
}

/// Entries `i < j` of score `c` keep their order inside the group of `c`.
pub proof fn lemma_with_score_order(s: Seq<(int, int)>, c: int, i: int, j: int)
    requires
        0 <= i < j < s.len(),
        s[i].0 == c,
        s[j].0 == c,
    ensures
        exists|p: int, q: int|
            0 <= p < q < with_score(s, c).len() && with_score(s, c)[p] == s[i] && with_score(
                s,
                c,
            )[q] == s[j],
    decreases s.len(),
{
    let t = s.drop_first();
    let w = with_score(s, c);
    if i == 0 {
        assert(t[j - 1] == s[j]);
        lemma_with_score_in(t, c, j - 1);
        let q = choose|q: int| 0 <= q < with_score(t, c).len() && with_score(t, c)[q] == s[j];
        assert(w[0] == s[0]);
        assert(w[q + 1] == s[j]);
    } else {
        assert(t[i - 1] == s[i]);
        assert(t[j - 1] == s[j]);
        lemma_with_score_order(t, c, i - 1, j - 1);
        let (p, q) = choose|p: int, q: int|
            0 <= p < q < with_score(t, c).len() && with_score(t, c)[p] == s[i] && with_score(
                t,
                c,
            )[q] == s[j];
        if s[0].0 == c {
            assert(w[p + 1] == s[i] && w[q + 1] == s[j]);
        } else {
            assert(w[p] == s[i] && w[q] == s[j]);
        }
    }
}

/// Positions that increase along `s` increase along each of its groups.
pub proof fn lemma_with_score_positions_increase(s: Seq<(int, int)>, c: int)
    requires
        forall|a: int, b: int| 0 <= a < b < s.len() ==> #[trigger] s[a].1 < #[trigger] s[b].1,
    ensures
        forall|a: int, b: int|
            0 <= a < b < with_score(s, c).len() ==> #[trigger] with_score(s, c)[a].1
                < #[trigger] with_score(s, c)[b].1,
    decreases s.len(),
{
    if s.len() > 0 {
        let t = s.drop_first();
        assert forall|a: int, b: int| 0 <= a < b < t.len() implies #[trigger] t[a].1 < #[trigger] t[b].1 by {
            assert(s[a + 1].1 < s[b + 1].1);
        }
        lemma_with_score_positions_increase(t, c);
        lemma_with_score_members(t, c);
        let w = with_score(s, c);
        if s[0].0 == c {
            let wt = with_score(t, c);
            assert forall|a: int, b: int| 0 <= a < b < w.len() implies #[trigger] w[a].1 < #[trigger] w[b].1 by {
                if a == 0 {
                    assert(w[b] == wt[b - 1]);
                    let k = choose|k: int| 0 <= k < t.len() && t[k] == wt[b - 1];
                    assert(s[k + 1] == t[k]);
                    assert(s[0].1 < s[k + 1].1);
                } else {
                    assert(w[a] == wt[a - 1]);
                    assert(w[b] == wt[b - 1]);
                }
            }
        }
    }
}

/// The mathematical value of a list of `(score, index)` pairs.
pub open spec fn pairs_view(s: Seq<(usize, usize)>) -> Seq<(int, int)> {
    Seq::new(s.len(), |k: int| (s[k].0 as int, s[k].1 as int))
}

/// Ranks `(score, index)` pairs by descending score, keeping the order of
/// pairs with equal scores (a bubble sort that only exchanges neighbours whose
/// scores differ).
pub fn rank_by_score(v: Vec<(usize, usize)>) -> (r: Vec<(usize, usize)>)
    ensures
        pairs_view(r@) == ranked(pairs_view(v@)),
{
    let ghost e = pairs_view(v@);
    let mut ranked_pairs = v;
    let len = ranked_pairs.len();
    if len > 1 {
        let mut i: usize = 0;
        while i < len
            invariant
                len == ranked_pairs.len(),
                i <= len,
                forall|c: int| #[trigger] with_score(pairs_view(ranked_pairs@), c) == with_score(e, c),
                forall|a: int, b: int|
                    0 <= a < b < len && b >= len - i ==> #[trigger] pairs_view(ranked_pairs@)[a].0
                        >= #[trigger] pairs_view(ranked_pairs@)[b].0,
            decreases len - i,
        {
            let mut j: usize = 0;
            while j < len - 1 - i
                invariant
                    len == ranked_pairs.len(),
                    i < len,
                    j <= len - 1 - i,
                    forall|c: int| #[trigger] with_score(pairs_view(ranked_pairs@), c) == with_score(e, c),
                    forall|a: int, b: int|
                        0 <= a < b < len && b >= len - i ==> #[trigger] pairs_view(ranked_pairs@)[a].0
                            >= #[trigger] pairs_view(ranked_pairs@)[b].0,
                    forall|a: int|
                        0 <= a < j ==> #[trigger] pairs_view(ranked_pairs@)[a].0 >= pairs_view(
                            ranked_pairs@,
                        )[j as int].0,
                decreases len - 1 - i - j,
            {
                let a = ranked_pairs[j];
                let b = ranked_pairs[j + 1];
                if a.0 < b.0 {
                    let ghost before = pairs_view(ranked_pairs@);
                    let moved = ranked_pairs.remove(j + 1);
                    ranked_pairs.insert(j, moved);
                    proof {
                        assert(pairs_view(ranked_pairs@) =~= swap_next(before, j as int));
                        assert forall|c: int| #[trigger] with_score(pairs_view(ranked_pairs@), c) == with_score(e, c) by {
                            lemma_swap_keeps_groups(before, j as int, c);
                        }
                    }
                }
                j = j + 1;
            }
            i = i + 1;
        }
    }
    proof {
        let r = pairs_view(ranked_pairs@);
        assert(sorted_desc(r));
        lemma_ranked_is_ranking(e);
        lemma_ranking_unique(e, r, ranked(e));
    }
    ranked_pairs
}

} // verus!
