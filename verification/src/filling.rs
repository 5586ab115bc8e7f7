//! Fillings of a line: what it means for a fully known line to solve a clue
//! under fixed cells, which cells every solution shares, and how the
//! solutions with a given last run are built from shorter ones.

use vstd::prelude::*;
use crate::clue::{
    clue_of, lemma_no_runs, lemma_runs_blank, lemma_runs_filled, lemma_runs_open, lemma_strip_empty,
    lemma_strip_filled, runs, trailing_empty, trailing_filled, uniform,
};

verus! {

/// `fill` has the length of `fixed` and the value of each of its known cells.
pub open spec fn agrees(fill: Seq<bool>, fixed: Seq<Option<bool>>) -> bool {
    &&& fill.len() == fixed.len()
    &&& forall|p: int|
        0 <= p < fill.len() ==> (#[trigger] fixed[p] is Some ==> fixed[p] == Some(fill[p]))
}

/// `fill` is a solution: it has the clue `clue` and agrees with `fixed`.
pub open spec fn solves(fill: Seq<bool>, clue: Seq<nat>, fixed: Seq<Option<bool>>) -> bool {
    agrees(fill, fixed) && clue_of(fill) == clue
}

/// Some line solves `clue` under `fixed`.
pub open spec fn feasible(clue: Seq<nat>, fixed: Seq<Option<bool>>) -> bool {
    exists|fill: Seq<bool>| solves(fill, clue, fixed)
}

/// Every solution has the value `v` at position `p`.
pub open spec fn forced(clue: Seq<nat>, fixed: Seq<Option<bool>>, p: int, v: bool) -> bool {
    forall|fill: Seq<bool>| solves(fill, clue, fixed) ==> fill[p] == v
}

/// The line that holds, at each position, the value that every solution has
/// there, and no value where two solutions differ.
pub open spec fn line_solution(clue: Seq<nat>, fixed: Seq<Option<bool>>) -> Seq<Option<bool>> {
    Seq::new(
        fixed.len(),
        |p: int|
            if forced(clue, fixed, p, true) {
                Some(true)
            } else if forced(clue, fixed, p, false) {
                Some(false)
            } else {
                None
            },
    )
}

/// Two partly known lines of one length that contradict each other nowhere.
pub open spec fn fits(a: Seq<Option<bool>>, b: Seq<Option<bool>>) -> bool {
    &&& a.len() == b.len()
    &&& forall|p: int| 0 <= p < a.len() ==> (#[trigger] a[p] is None || b[p] is None || a[p] == b[p])
}

/// A fully known line as a partly known one.
pub open spec fn known(s: Seq<bool>) -> Seq<Option<bool>> {
    Seq::new(s.len(), |i: int| Some(s[i]))
}

/// The merge of two cells: their value where they are equal, else no value.
pub open spec fn merge_cell(a: Option<bool>, b: Option<bool>) -> Option<bool> {
    if a == b {
        a
    } else {
        None
    }
}

/// The merge of two lines, cell by cell.
pub open spec fn merge_lines(a: Seq<Option<bool>>, b: Seq<Option<bool>>) -> Seq<Option<bool>> {
    Seq::new(a.len(), |p: int| merge_cell(a[p], b[p]))
}

/// The merge of `line` into what was gathered so far.
pub open spec fn merge_into(acc: Option<Seq<Option<bool>>>, line: Seq<Option<bool>>) -> Seq<
    Option<bool>,
> {
    match acc {
        None => line,
        Some(a) => merge_lines(a, line),
    }
}

/// The solutions with fewer than `t` empty cells at their end.
pub open spec fn solutions(clue: Seq<nat>, fixed: Seq<Option<bool>>, t: int) -> Set<Seq<bool>> {
    Set::new(|f: Seq<bool>| solves(f, clue, fixed) && trailing_empty(f) < t)
}

/// The solutions with exactly `t` empty cells at their end.
pub open spec fn solutions_at(clue: Seq<nat>, fixed: Seq<Option<bool>>, t: int) -> Set<
    Seq<bool>,
> {
    Set::new(|f: Seq<bool>| solves(f, clue, fixed) && trailing_empty(f) == t)
}

/// Every line of `s` has the value `v` at position `p`.
pub open spec fn all_have(s: Set<Seq<bool>>, p: int, v: bool) -> bool {
    forall|f: Seq<bool>| s.contains(f) ==> f[p] == v
}

/// `m` is the merge of all lines of `s`: nothing where `s` is empty, else a
/// line of length `n` that holds a value exactly where all lines of `s` share it.
pub open spec fn summarises(m: Option<Seq<Option<bool>>>, n: int, s: Set<Seq<bool>>) -> bool {
    match m {
        None => forall|f: Seq<bool>| !s.contains(f),
        Some(l) => {
            &&& l.len() == n
            &&& exists|f: Seq<bool>| s.contains(f)
            &&& forall|p: int, v: bool|
                0 <= p < n ==> (l[p] == Some(v) <==> #[trigger] all_have(s, p, v))
        },
    }
}

/// What a step of merging leaves: `acc` where there is no candidate, else the
/// candidate merged into `acc`.
pub open spec fn merge_step(
    acc: Option<Seq<Option<bool>>>,
    cand: Option<Seq<Option<bool>>>,
) -> Option<Seq<Option<bool>>> {
    match cand {
        None => acc,
        Some(c) => Some(merge_into(acc, c)),
    }
}

/// Merging the merges of two sets gives the merge of their union.
pub proof fn lemma_merge_union(
    acc: Option<Seq<Option<bool>>>,
    cand: Option<Seq<Option<bool>>>,
    n: int,
    a: Set<Seq<bool>>,
    q: Set<Seq<bool>>,
)
    requires
        summarises(acc, n, a),
        summarises(cand, n, q),
    ensures
        summarises(merge_step(acc, cand), n, a.union(q)),
{
    let u = a.union(q);
    assert forall|f: Seq<bool>| u.contains(f) == (a.contains(f) || q.contains(f)) by {}
    assert forall|p: int, v: bool| #[trigger]
        all_have(u, p, v) == (all_have(a, p, v) && all_have(q, p, v)) by {
        if all_have(u, p, v) {
            assert forall|f: Seq<bool>| a.contains(f) implies f[p] == v by {
                assert(u.contains(f));
            }
            assert forall|f: Seq<bool>| q.contains(f) implies f[p] == v by {
                assert(u.contains(f));
            }
        }
    }
    match cand {
        None => {
            match acc {
                None => {},
                Some(l) => {
                    let f = choose|f: Seq<bool>| a.contains(f);
                    assert(u.contains(f));
                    assert forall|p: int, v: bool| 0 <= p < n implies (l[p] == Some(v)
                        <==> #[trigger] all_have(u, p, v)) by {
                        assert(all_have(q, p, v));
                        assert(all_have(u, p, v) == all_have(a, p, v));
                    }
                },
            }
        },
        Some(c) => {
            let g = choose|f: Seq<bool>| q.contains(f);
            assert(u.contains(g));
            match acc {
                None => {
                    assert forall|p: int, v: bool| 0 <= p < n implies (c[p] == Some(v)
                        <==> #[trigger] all_have(u, p, v)) by {
                        assert(all_have(a, p, v));
                        assert(all_have(u, p, v) == all_have(q, p, v));
                    }
                },
                Some(l) => {
                    let r = merge_lines(l, c);
                    assert forall|p: int, v: bool| 0 <= p < n implies (r[p] == Some(v)
                        <==> #[trigger] all_have(u, p, v)) by {
                        assert(all_have(u, p, v) == (all_have(a, p, v) && all_have(q, p, v)));
                        assert(l[p] == Some(v) <==> all_have(a, p, v));
                        assert(c[p] == Some(v) <==> all_have(q, p, v));
                    }
                },
            }
        },
    }
}

/// The shape of a line with at least one run: before its trailing empty
/// cells stands its last run, and before that nothing, or an empty cell
/// after a line with the runs before the last.
pub proof fn lemma_last_run(f: Seq<bool>)
    requires
        clue_of(f).len() >= 1,
    ensures
        ({
            let b = clue_of(f).last();
            let t = trailing_empty(f);
            let s = f.len() - t - b;
            &&& b > 0
            &&& s >= 0
            &&& f == f.take(s) + uniform(b, true) + uniform(t, false)
            &&& s == 0 ==> clue_of(f).len() == 1
            &&& s >= 1 ==> !f[s - 1] && clue_of(f.take(s - 1)) == clue_of(f).drop_last()
        }),
{
    let t = trailing_empty(f);
    lemma_strip_empty(f);
    let g = f.take(f.len() - t);
    lemma_runs_blank(g, t);
    assert(clue_of(g) == clue_of(f));
    let r = trailing_filled(g);
    lemma_strip_filled(g);
    let h = g.take(g.len() - r);
    lemma_runs_filled(h, r, 0);
    assert(runs(h, r) == clue_of(f));
    if r == 0 {
        assert(g.len() == 0);
        assert(false);
    }
    assert(h =~= f.take(f.len() - t - r));
    if h.len() == 0 {
        assert(runs(h, r) =~= seq![r]);
    } else {
        assert(!h.last());
        let d = h.drop_last();
        assert(runs(h, r) == runs(d, 0).push(r));
        assert(runs(d, 0).push(r).drop_last() =~= runs(d, 0));
        assert(d =~= f.take(f.len() - t - r - 1));
    }
}

/// A line followed by an empty cell, a run of `b` and `t` empty cells has
/// the line's clue followed by `b`.
pub proof fn lemma_append_run(h: Seq<bool>, b: nat, t: nat)
    requires
        b > 0,
    ensures
        clue_of(h.push(false) + uniform(b, true) + uniform(t, false)) == clue_of(h).push(b),
        trailing_empty(h.push(false) + uniform(b, true) + uniform(t, false)) == t,
{
    let y = h.push(false) + uniform(b, true);
    lemma_runs_blank(y, t);
    assert(y.last());
    lemma_runs_filled(h.push(false), b, 0);
    assert(h.push(false).drop_last() =~= h);
}

/// `m` empty cells, a run of `b` and `t` empty cells have the clue `[b]`.
pub proof fn lemma_single_run(m: nat, b: nat, t: nat)
    requires
        b > 0,
    ensures
        clue_of(uniform(m, false) + uniform(b, true) + uniform(t, false)) == seq![b],
        trailing_empty(uniform(m, false) + uniform(b, true) + uniform(t, false)) == t,
{
    let e = uniform(m, false);
    let y = e + uniform(b, true);
    lemma_runs_blank(y, t);
    assert(y.last());
    lemma_runs_filled(e, b, 0);
    lemma_no_runs(e);
    lemma_runs_open(e, b);
    if trailing_filled(e) > 0 {
        assert(clue_of(e).len() > 0);
    }
    assert(runs(e, b) =~= seq![b]);
}

/// The one candidate for a single run of `b` that ends `t` cells before the
/// end of the line.
pub open spec fn base_candidate(n: int, b: nat, t: nat) -> Seq<Option<bool>> {
    uniform((n - t - b) as nat, Some(false)) + uniform(b, Some(true)) + uniform(t, Some(false))
}

/// The candidate that puts an empty cell, a run of `b` and `t` empty cells
/// behind the merge `prev` of shorter lines.
pub open spec fn next_candidate(prev: Seq<Option<bool>>, b: nat, t: nat) -> Seq<Option<bool>> {
    prev + uniform(1, Some(false)) + uniform(b, Some(true)) + uniform(t, Some(false))
}

/// A candidate, where it contradicts no fixed cell.
pub open spec fn kept(cand: Seq<Option<bool>>, fixed: Seq<Option<bool>>) -> Option<
    Seq<Option<bool>>,
> {
    if fits(cand, fixed) {
        Some(cand)
    } else {
        None
    }
}

/// With a single run, the solutions with `t` trailing empty cells are the
/// one candidate, where it fits, and none where it does not.
pub proof fn lemma_base_candidate(b: nat, fixed: Seq<Option<bool>>, t: nat)
    requires
        b > 0,
        t + b <= fixed.len(),
    ensures
        summarises(
            kept(base_candidate(fixed.len() as int, b, t), fixed),
            fixed.len() as int,
            solutions_at(seq![b], fixed, t as int),
        ),
{
    let n = fixed.len() as int;
    let m = (n - t - b) as nat;
    let line = uniform(m, false) + uniform(b, true) + uniform(t, false);
    let cand = base_candidate(n, b, t);
    let q = solutions_at(seq![b], fixed, t as int);
    assert(cand =~= known(line));
    lemma_single_run(m, b, t);
    assert forall|f: Seq<bool>| q.contains(f) implies f == line by {
        lemma_last_run(f);
        assert(clue_of(f).last() == b);
        if m >= 1 {
            lemma_no_runs(f.take(m - 1));
            assert forall|p: int| 0 <= p < m implies !f.take(m as int)[p] by {
                if p < m - 1 {
                    assert(f.take(m - 1)[p] == f[p]);
                }
            }
        }
        assert(f.take(m as int) =~= uniform(m, false));
    }
    if fits(cand, fixed) {
        assert forall|p: int| 0 <= p < n && #[trigger] fixed[p] is Some implies fixed[p]
            == Some(line[p]) by {
            assert(cand[p] is None || fixed[p] is None || cand[p] == fixed[p]);
        }
        assert(q.contains(line));
        assert forall|p: int, v: bool| 0 <= p < n implies (cand[p] == Some(v)
            <==> #[trigger] all_have(q, p, v)) by {}
    } else {
        assert forall|f: Seq<bool>| !q.contains(f) by {
            if q.contains(f) {
                assert(f == line);
                assert forall|p: int| 0 <= p < n implies (#[trigger] cand[p] is None
                    || fixed[p] is None || cand[p] == fixed[p]) by {
                    if fixed[p] is Some {
                        assert(fixed[p] == Some(f[p]));
                    }
                }
            }
        }
    }
}

/// The line `y`, then an empty cell, a run of `b` and `t` empty cells.
pub open spec fn extended(y: Seq<bool>, b: nat, t: nat) -> Seq<bool> {
    y.push(false) + uniform(b, true) + uniform(t, false)
}

/// The solutions for all runs but the last, on the cells that the last run
/// and what surrounds it leave when `t` empty cells follow it.
pub open spec fn shorter_solutions(clue: Seq<nat>, fixed: Seq<Option<bool>>, t: nat) -> Set<
    Seq<bool>,
> {
    let h = fixed.len() - t - clue.last() - 1;
    solutions(clue.drop_last(), fixed.take(h), h + 1)
}

/// The fixed cells behind the first `h` hold nothing against an empty cell, a
/// run of `b` and `t` empty cells.
pub open spec fn tail_free(fixed: Seq<Option<bool>>, h: int, t: nat) -> bool {
    forall|p: int|
        h <= p < fixed.len() ==> (#[trigger] fixed[p] is Some ==> fixed[p] == Some(
            h < p < fixed.len() - t,
        ))
}

/// A solution with two or more runs is a shorter solution, extended.
pub proof fn lemma_shrink(clue: Seq<nat>, fixed: Seq<Option<bool>>, t: nat, f: Seq<bool>)
    requires
        clue.len() >= 2,
        solutions_at(clue, fixed, t as int).contains(f),
    ensures
        t + clue.last() + 2 <= fixed.len(),
        shorter_solutions(clue, fixed, t).contains(f.take(fixed.len() - t - clue.last() - 1)),
        f == extended(f.take(fixed.len() - t - clue.last() - 1), clue.last(), t),
        tail_free(fixed, fixed.len() - t - clue.last() - 1, t),
{
    let n = fixed.len() as int;
    let b = clue.last();
    let h = n - t - b - 1;
    lemma_last_run(f);
    assert(h >= 0);
    let y = f.take(h);
    assert(clue_of(y).len() >= 1);
    lemma_no_runs(y);
    assert(h >= 1);
    lemma_strip_empty(y);
    assert(f.take(h + 1) =~= y.push(false));
    assert(agrees(y, fixed.take(h))) by {
        assert forall|p: int| 0 <= p < h && #[trigger] fixed.take(h)[p] is Some implies fixed.take(
            h,
        )[p] == Some(y[p]) by {
            assert(fixed[p] is Some);
        }
    }
    assert forall|p: int| h <= p < n && #[trigger] fixed[p] is Some implies fixed[p] == Some(
        h < p < n - t,
    ) by {
        assert(f[p] == extended(y, b, t)[p]);
    }
}

/// A shorter solution, extended, is a solution where the fixed cells allow
/// what it is extended by.
pub proof fn lemma_extend(clue: Seq<nat>, fixed: Seq<Option<bool>>, t: nat, y: Seq<bool>)
    requires
        clue.len() >= 2,
        clue.last() > 0,
        t + clue.last() + 2 <= fixed.len(),
        shorter_solutions(clue, fixed, t).contains(y),
        tail_free(fixed, fixed.len() - t - clue.last() - 1, t),
    ensures
        solutions_at(clue, fixed, t as int).contains(extended(y, clue.last(), t)),
{
    let n = fixed.len() as int;
    let b = clue.last();
    let h = n - t - b - 1;
    let e = extended(y, b, t);
    lemma_append_run(y, b, t);
    assert(clue_of(y).push(b) =~= clue);
    assert forall|p: int| 0 <= p < n && #[trigger] fixed[p] is Some implies fixed[p] == Some(
        e[p],
    ) by {
        if p < h {
            assert(fixed.take(h)[p] is Some);
            assert(e[p] == y[p]);
        } else {
            assert(e[p] == (h < p < n - t));
        }
    }
}

/// A candidate built on the merge of the shorter solutions fits the fixed
/// cells exactly when they allow what the shorter solutions are extended by.
pub proof fn lemma_candidate_fits(
    clue: Seq<nat>,
    fixed: Seq<Option<bool>>,
    t: nat,
    pl: Seq<Option<bool>>,
)
    requires
        clue.len() >= 2,
        clue.last() > 0,
        t + clue.last() + 2 <= fixed.len(),
        summarises(
            Some(pl),
            fixed.len() - t - clue.last() - 1,
            shorter_solutions(clue, fixed, t),
        ),
    ensures
        fits(next_candidate(pl, clue.last(), t), fixed) <==> tail_free(
            fixed,
            fixed.len() - t - clue.last() - 1,
            t,
        ),
{
    let n = fixed.len() as int;
    let b = clue.last();
    let h = n - t - b - 1;
    let shorter = shorter_solutions(clue, fixed, t);
    let cand = next_candidate(pl, b, t);
    let x = choose|x: Seq<bool>| shorter.contains(x);
    assert(shorter.contains(x));
    assert forall|p: int| h <= p < n implies cand[p] == Some(h < p < n - t) by {}
    if tail_free(fixed, h, t) {
        assert forall|p: int| 0 <= p < n implies (#[trigger] cand[p] is None || fixed[p] is None
            || cand[p] == fixed[p]) by {
            if p < h {
                if pl[p] is Some && fixed[p] is Some {
                    let v = pl[p].unwrap();
                    assert(all_have(shorter, p, v));
                    assert(x[p] == v);
                    assert(fixed.take(h)[p] is Some);
                }
            } else {
                assert(fixed[p] is Some ==> fixed[p] == Some(h < p < n - t));
            }
        }
    }
    if fits(cand, fixed) {
        assert forall|p: int| h <= p < n && #[trigger] fixed[p] is Some implies fixed[p] == Some(
            h < p < n - t,
        ) by {
            assert(cand[p] is None || fixed[p] is None || cand[p] == fixed[p]);
        }
    }
}

/// With two or more runs, the solutions with `t` trailing empty cells are
/// the shorter solutions for the runs before the last, each followed by an
/// empty cell, the last run and `t` empty cells, where these fit.
pub proof fn lemma_next_candidate(
    clue: Seq<nat>,
    fixed: Seq<Option<bool>>,
    t: nat,
    prev: Option<Seq<Option<bool>>>,
)
    requires
        clue.len() >= 2,
        clue.last() > 0,
        t + clue.last() + 2 <= fixed.len(),
        summarises(prev, fixed.len() - t - clue.last() - 1, shorter_solutions(clue, fixed, t)),
    ensures
        summarises(
            match prev {
                None => None,
                Some(pl) => kept(next_candidate(pl, clue.last(), t), fixed),
            },
            fixed.len() as int,
            solutions_at(clue, fixed, t as int),
        ),
{
    let n = fixed.len() as int;
    let b = clue.last();
    let h = n - t - b - 1;
    let shorter = shorter_solutions(clue, fixed, t);
    let q = solutions_at(clue, fixed, t as int);
    assert forall|f: Seq<bool>| q.contains(f) implies shorter.contains(f.take(h)) && f
        == extended(f.take(h), b, t) && tail_free(fixed, h, t) by {
        lemma_shrink(clue, fixed, t, f);
    }
    match prev {
        None => {},
        Some(pl) => {
            let cand = next_candidate(pl, b, t);
            lemma_candidate_fits(clue, fixed, t, pl);
            let x = choose|x: Seq<bool>| shorter.contains(x);
            assert(shorter.contains(x));
            if fits(cand, fixed) {
                assert forall|y: Seq<bool>| shorter.contains(y) implies q.contains(
                    extended(y, b, t),
                ) && y.len() == h by {
                    lemma_extend(clue, fixed, t, y);
                }
                let ex = extended(x, b, t);
                assert(q.contains(ex));
                assert forall|p: int, v: bool| 0 <= p < n implies (cand[p] == Some(v)
                    <==> #[trigger] all_have(q, p, v)) by {
                    if p < h {
                        assert(cand[p] == pl[p]);
                        assert(pl[p] == Some(v) <==> all_have(shorter, p, v));
                        if all_have(shorter, p, v) {
                            assert forall|f: Seq<bool>| q.contains(f) implies f[p] == v by {
                                assert(shorter.contains(f.take(h)));
                                assert(f.take(h)[p] == f[p]);
                            }
                        }
                        if all_have(q, p, v) {
                            assert forall|y: Seq<bool>| shorter.contains(y) implies y[p] == v by {
                                assert(q.contains(extended(y, b, t)));
                                assert(extended(y, b, t)[p] == y[p]);
                            }
                        }
                    } else {
                        assert(cand[p] == Some(ex[p]));
                        assert forall|f: Seq<bool>| q.contains(f) implies f[p] == ex[p] by {
                            assert(f == extended(f.take(h), b, t));
                            assert(f.take(h).len() == h);
                        }
                    }
                }
            }
        },
    }
}

/// Counting trailing empty cells splits the solutions: those with fewer
/// than `t + 1` are those with fewer than `t` and those with exactly `t`.
pub proof fn lemma_solutions_split(clue: Seq<nat>, fixed: Seq<Option<bool>>, t: int)
    ensures
        solutions(clue, fixed, t + 1) == solutions(clue, fixed, t).union(
            solutions_at(clue, fixed, t),
        ),
{
    assert(solutions(clue, fixed, t + 1) =~= solutions(clue, fixed, t).union(
        solutions_at(clue, fixed, t),
    ));
}

/// With a single run, no solution has more trailing empty cells than the
/// run leaves room for.
pub proof fn lemma_base_complete(b: nat, fixed: Seq<Option<bool>>, t: int)
    requires
        t >= fixed.len() - b + 1,
    ensures
        solutions(seq![b], fixed, t) == solutions(seq![b], fixed, (fixed.len() + 1) as int),
{
    assert forall|f: Seq<bool>| solves(f, seq![b], fixed) implies trailing_empty(f) < t
        && trailing_empty(f) <= fixed.len() by {
        lemma_last_run(f);
        lemma_strip_empty(f);
    }
    assert(solutions(seq![b], fixed, t) =~= solutions(seq![b], fixed, (fixed.len() + 1) as int));
}

/// The least number of cells that hold the runs of `clue` with an empty
/// cell between each two of them.
pub open spec fn span(clue: Seq<nat>) -> nat
    decreases clue.len(),
{
    if clue.len() == 0 {
        0
    } else if clue.len() == 1 {
        clue[0]
    } else {
        span(clue.drop_last()) + 1 + clue.last()
    }
}

/// A line is at least as long as its runs and the empty cells between them.
pub proof fn lemma_min_length(f: Seq<bool>)
    ensures
        span(clue_of(f)) <= f.len(),
    decreases f.len(),
{
    let c = clue_of(f);
    if c.len() >= 1 {
        lemma_last_run(f);
        let s = f.len() - trailing_empty(f) - c.last();
        if s >= 1 {
            lemma_min_length(f.take(s - 1));
        }
    }
}

/// The first runs of a clue need no more cells than all of them.
pub proof fn lemma_span_prefix(clue: Seq<nat>, i: int)
    requires
        0 <= i <= clue.len(),
    ensures
        span(clue.take(i)) <= span(clue),
    decreases clue.len(),
{
    if i == clue.len() {
        assert(clue.take(i) =~= clue);
    } else {
        assert(clue.take(i) =~= clue.drop_last().take(i));
        lemma_span_prefix(clue.drop_last(), i);
    }
}

/// No line is a solution for a clue that needs more cells than it has.
pub proof fn lemma_too_long(clue: Seq<nat>, fixed: Seq<Option<bool>>, i: int)
    requires
        0 <= i <= clue.len(),
        span(clue.take(i)) > fixed.len(),
    ensures
        !feasible(clue, fixed),
{
    lemma_span_prefix(clue, i);
    assert forall|f: Seq<bool>| !solves(f, clue, fixed) by {
        lemma_min_length(f);
    }
}

/// With two or more runs, no solution has more trailing empty cells than
/// the least room for all runs leaves.
pub proof fn lemma_next_complete(clue: Seq<nat>, fixed: Seq<Option<bool>>, t: int)
    requires
        clue.len() >= 2,
        t >= 0,
        t >= fixed.len() - span(clue) + 1,
    ensures
        solutions(clue, fixed, t) == solutions(clue, fixed, (fixed.len() + 1) as int),
{
    assert forall|f: Seq<bool>| solves(f, clue, fixed) implies trailing_empty(f) < t
        && trailing_empty(f) <= fixed.len() by {
        assert(solutions_at(clue, fixed, trailing_empty(f) as int).contains(f));
        lemma_shrink(clue, fixed, trailing_empty(f), f);
        lemma_strip_empty(f);
        lemma_min_length(f.take(fixed.len() - trailing_empty(f) - clue.last() - 1));
    }
    assert(solutions(clue, fixed, t) =~= solutions(clue, fixed, (fixed.len() + 1) as int));
}

/// The merge of all solutions is the line of forced cells, and there is one
/// exactly when the clue is feasible.
pub proof fn lemma_summary_total(
    m: Option<Seq<Option<bool>>>,
    clue: Seq<nat>,
    fixed: Seq<Option<bool>>,
)
    requires
        summarises(m, fixed.len() as int, solutions(clue, fixed, (fixed.len() + 1) as int)),
    ensures
        m is Some <==> feasible(clue, fixed),
        m matches Some(l) ==> l == line_solution(clue, fixed),
{
    let all = solutions(clue, fixed, (fixed.len() + 1) as int);
    assert forall|f: Seq<bool>| solves(f, clue, fixed) implies all.contains(f) by {
        lemma_strip_empty(f);
    }
    assert forall|p: int, v: bool| #[trigger] all_have(all, p, v) == forced(clue, fixed, p, v) by {
        if all_have(all, p, v) {
            assert forall|f: Seq<bool>| solves(f, clue, fixed) implies f[p] == v by {
                assert(all.contains(f));
            }
        }
    }
    match m {
        None => {
            assert forall|f: Seq<bool>| !solves(f, clue, fixed) by {
                if solves(f, clue, fixed) {
                    assert(all.contains(f));
                }
            }
        },
        Some(l) => {
            let w = choose|f: Seq<bool>| all.contains(f);
            assert(solves(w, clue, fixed));
            let r = line_solution(clue, fixed);
            assert forall|p: int| 0 <= p < l.len() implies l[p] == r[p] by {
                assert(l[p] == Some(true) <==> all_have(all, p, true));
                assert(l[p] == Some(false) <==> all_have(all, p, false));
                assert(all_have(all, p, true) == forced(clue, fixed, p, true));
                assert(all_have(all, p, false) == forced(clue, fixed, p, false));
                if forced(clue, fixed, p, true) && forced(clue, fixed, p, false) {
                    assert(w[p] == true && w[p] == false);
                }
                match l[p] {
                    Some(true) => {},
                    Some(false) => {},
                    None => {},
                }
            }
            assert(l =~= r);
        },
    }
}

/// With the empty clue the only candidate is the line of empty cells.
pub proof fn lemma_blank_line(fixed: Seq<Option<bool>>)
    ensures
        feasible(Seq::empty(), fixed) <==> fits(uniform(fixed.len(), Some(false)), fixed),
        feasible(Seq::empty(), fixed) ==> line_solution(Seq::empty(), fixed) == uniform(
            fixed.len(),
            Some(false),
        ),
{
    let n = fixed.len();
    let clue = Seq::<nat>::empty();
    let blank = uniform(n, false);
    let cand = uniform(n, Some(false));
    lemma_no_runs(blank);
    assert(clue_of(blank) =~= clue);
    assert forall|f: Seq<bool>| solves(f, clue, fixed) implies f == blank by {
        lemma_no_runs(f);
        assert(f =~= blank);
    }
    if fits(cand, fixed) {
        assert forall|p: int| 0 <= p < n && #[trigger] fixed[p] is Some implies fixed[p] == Some(
            blank[p],
        ) by {
            assert(cand[p] is None || fixed[p] is None || cand[p] == fixed[p]);
        }
        assert(solves(blank, clue, fixed));
    }
    if feasible(clue, fixed) {
        let w = choose|f: Seq<bool>| solves(f, clue, fixed);
        assert(w == blank);
        assert forall|p: int| 0 <= p < n implies (#[trigger] cand[p] is None || fixed[p] is None
            || cand[p] == fixed[p]) by {
            if fixed[p] is Some {
                assert(fixed[p] == Some(blank[p]));
            }
        }
        let r = line_solution(clue, fixed);
        assert forall|p: int| 0 <= p < n implies r[p] == cand[p] by {
            assert(forced(clue, fixed, p, false));
            if forced(clue, fixed, p, true) {
                assert(blank[p] == true);
            }
        }
        assert(r =~= cand);
    }
}

/// Merging two cells does not depend on their order.
pub proof fn lemma_merge_cell_commutative(a: Option<bool>, b: Option<bool>)
    ensures
        merge_cell(a, b) == merge_cell(b, a),
{
}

/// Merging three cells does not depend on how they are grouped.
pub proof fn lemma_merge_cell_associative(a: Option<bool>, b: Option<bool>, c: Option<bool>)
    ensures
        merge_cell(merge_cell(a, b), c) == merge_cell(a, merge_cell(b, c)),
{
}

/// Merging a cell with itself gives the cell.
pub proof fn lemma_merge_cell_idempotent(a: Option<bool>)
    ensures
        merge_cell(a, a) == a,
{
}

/// A merged cell holds a value only where both cells held it.
pub proof fn lemma_merge_cell_keeps(a: Option<bool>, b: Option<bool>, v: bool)
    ensures
        merge_cell(a, b) == Some(v) <==> a == Some(v) && b == Some(v),
{
}

/// Merging two lines of one length does not depend on their order.
pub proof fn lemma_merge_commutative(a: Seq<Option<bool>>, b: Seq<Option<bool>>)
    requires
        a.len() == b.len(),
    ensures
        merge_lines(a, b) == merge_lines(b, a),
{
    assert(merge_lines(a, b) =~= merge_lines(b, a));
}

/// Merging three lines of one length does not depend on how they are
/// grouped.
pub proof fn lemma_merge_associative(
    a: Seq<Option<bool>>,
    b: Seq<Option<bool>>,
    c: Seq<Option<bool>>,
)
    requires
        a.len() == b.len(),
        b.len() == c.len(),
    ensures
        merge_lines(merge_lines(a, b), c) == merge_lines(a, merge_lines(b, c)),
{
    assert(merge_lines(merge_lines(a, b), c) =~= merge_lines(a, merge_lines(b, c)));
}

/// Merging a line with itself gives the line.
pub proof fn lemma_merge_idempotent(a: Seq<Option<bool>>)
    ensures
        merge_lines(a, a) == a,
{
    assert(merge_lines(a, a) =~= a);
}

/// The solver is sound: where the known cells of a line are cells of a
/// fully known line, that line's clue is feasible, and every cell that the
/// clue forces has the value of the fully known line.
pub proof fn lemma_solution_sound(truth: Seq<bool>, fixed: Seq<Option<bool>>)
    requires
        agrees(truth, fixed),
    ensures
        feasible(clue_of(truth), fixed),
        agrees(truth, line_solution(clue_of(truth), fixed)),
{
    let clue = clue_of(truth);
    assert(solves(truth, clue, fixed));
    let s = line_solution(clue, fixed);
    assert forall|p: int| 0 <= p < truth.len() && #[trigger] s[p] is Some implies s[p] == Some(
        truth[p],
    ) by {
        if forced(clue, fixed, p, true) {
            assert(truth[p] == true);
        } else if forced(clue, fixed, p, false) {
            assert(truth[p] == false);
        }
    }
}

} // verus!
