//! Clues: the lengths of the maximal runs of filled cells of a line.

use vstd::prelude::*;

verus! {

/// The run lengths of `s`, left to right, when `s` is followed directly by
/// `open` further filled cells that belong to its last run.
pub open spec fn runs(s: Seq<bool>, open: nat) -> Seq<nat>
    decreases s.len(),
{
    if s.len() == 0 {
        if open > 0 {
            seq![open]
        } else {
            Seq::empty()
        }
    } else if s.last() {
        runs(s.drop_last(), open + 1)
    } else if open > 0 {
        runs(s.drop_last(), 0).push(open)
    } else {
        runs(s.drop_last(), 0)
    }
}

/// The clue of a fully known line: the lengths of its maximal runs of filled
/// cells, in order. A line without filled cells has the empty clue.
pub open spec fn clue_of(s: Seq<bool>) -> Seq<nat> {
    runs(s, 0)
}

/// The number of filled cells at the end of `s`.
pub open spec fn trailing_filled(s: Seq<bool>) -> nat
    decreases s.len(),
{
    if s.len() == 0 || !s.last() {
        0
    } else {
        1 + trailing_filled(s.drop_last())
    }
}

/// The number of empty cells at the end of `s`.
pub open spec fn trailing_empty(s: Seq<bool>) -> nat
    decreases s.len(),
{
    if s.len() == 0 || s.last() {
        0
    } else {
        1 + trailing_empty(s.drop_last())
    }
}

/// A line of `n` cells that are all `v`.
pub open spec fn uniform<T>(n: nat, v: T) -> Seq<T> {
    Seq::new(n, |i: int| v)
}

/// How an open run changes the runs of `s`: it lengthens the last run where
/// `s` ends filled, and adds a run of its own where it does not.
pub proof fn lemma_runs_open(s: Seq<bool>, open: nat)
    requires
        open > 0,
    ensures
        trailing_filled(s) > 0 ==> runs(s, 0).len() > 0 && runs(s, 0).last() == trailing_filled(s)
            && runs(s, open) == runs(s, 0).drop_last().push(trailing_filled(s) + open),
        trailing_filled(s) == 0 ==> runs(s, open) == runs(s, 0).push(open),
    decreases s.len(),
{
    if s.len() == 0 {
        assert(runs(s, open) =~= runs(s, 0).push(open));
    } else if s.last() {
        let d = s.drop_last();
        lemma_runs_open(d, open + 1);
        lemma_runs_open(d, 1);
        if trailing_filled(d) > 0 {
            assert(runs(d, 1).drop_last() =~= runs(d, 0).drop_last());
        } else {
            assert(runs(d, 1).drop_last() =~= runs(d, 0));
        }
    } else {
    }
}

/// Every run is at least one cell long.
pub proof fn lemma_runs_positive(s: Seq<bool>, open: nat)
    ensures
        forall|i: int| 0 <= i < runs(s, open).len() ==> #[trigger] runs(s, open)[i] > 0,
        open > 0 ==> runs(s, open).len() > 0,
    decreases s.len(),
{
    if s.len() == 0 {
    } else if s.last() {
        lemma_runs_positive(s.drop_last(), open + 1);
    } else {
        lemma_runs_positive(s.drop_last(), 0);
        let r = runs(s.drop_last(), 0);
        assert forall|i: int| 0 <= i < runs(s, open).len() implies #[trigger] runs(s, open)[i]
            > 0 by {
            if i < r.len() {
                assert(r[i] > 0);
            }
        }
    }
}

/// A line has the empty clue exactly when none of its cells is filled.
pub proof fn lemma_no_runs(s: Seq<bool>)
    ensures
        clue_of(s).len() == 0 <==> (forall|p: int| 0 <= p < s.len() ==> !s[p]),
    decreases s.len(),
{
    if s.len() == 0 {
    } else if s.last() {
        lemma_runs_positive(s.drop_last(), 1);
    } else {
        lemma_no_runs(s.drop_last());
        let d = s.drop_last();
        if clue_of(s).len() == 0 {
            assert forall|p: int| 0 <= p < s.len() implies !s[p] by {
                if p < d.len() {
                    assert(d[p] == s[p]);
                }
            }
        } else {
            assert(exists|p: int| 0 <= p < d.len() && d[p]);
            let p = choose|p: int| 0 <= p < d.len() && d[p];
            assert(s[p]);
        }
    }
}

/// Empty cells at the end of a line do not change its clue.
pub proof fn lemma_runs_blank(s: Seq<bool>, t: nat)
    ensures
        clue_of(s + uniform(t, false)) == clue_of(s),
        (s.len() == 0 || s.last()) ==> trailing_empty(s + uniform(t, false)) == t,
    decreases t,
{
    let x = s + uniform(t, false);
    if t == 0 {
        assert(x =~= s);
    } else {
        lemma_runs_blank(s, (t - 1) as nat);
        assert(x.drop_last() =~= s + uniform((t - 1) as nat, false));
    }
}

/// Filled cells at the end of a line count as an open run of what stands
/// before them.
pub proof fn lemma_runs_filled(s: Seq<bool>, b: nat, open: nat)
    ensures
        runs(s + uniform(b, true), open) == runs(s, open + b),
    decreases b,
{
    let x = s + uniform(b, true);
    if b == 0 {
        assert(x =~= s);
    } else {
        lemma_runs_filled(s, (b - 1) as nat, open + 1);
        assert(x.drop_last() =~= s + uniform((b - 1) as nat, true));
    }
}

/// A line splits into what stands before its trailing empty cells, and them.
pub proof fn lemma_strip_empty(s: Seq<bool>)
    ensures
        trailing_empty(s) <= s.len(),
        s == s.take(s.len() - trailing_empty(s)) + uniform(trailing_empty(s), false),
        s.len() == trailing_empty(s) || s[s.len() - trailing_empty(s) - 1],
    decreases s.len(),
{
    let t = trailing_empty(s);
    if s.len() == 0 || s.last() {
        assert(s =~= s.take(s.len() - t) + uniform(t, false));
    } else {
        let d = s.drop_last();
        lemma_strip_empty(d);
        let h = d.take(d.len() - trailing_empty(d));
        assert(h =~= s.take(s.len() - t));
        assert forall|i: int| 0 <= i < s.len() implies s[i] == (h + uniform(t, false))[i] by {
            if i < d.len() {
                assert(d[i] == (h + uniform(trailing_empty(d), false))[i]);
            }
        }
        assert(s =~= h + uniform(t, false));
    }
}

/// A line splits into what stands before its trailing filled cells, and them.
pub proof fn lemma_strip_filled(s: Seq<bool>)
    ensures
        trailing_filled(s) <= s.len(),
        s == s.take(s.len() - trailing_filled(s)) + uniform(trailing_filled(s), true),
        s.len() == trailing_filled(s) || !s[s.len() - trailing_filled(s) - 1],
    decreases s.len(),
{
    let t = trailing_filled(s);
    if s.len() == 0 || !s.last() {
        assert(s =~= s.take(s.len() - t) + uniform(t, true));
    } else {
        let d = s.drop_last();
        lemma_strip_filled(d);
        let h = d.take(d.len() - trailing_filled(d));
        assert(h =~= s.take(s.len() - t));
        assert forall|i: int| 0 <= i < s.len() implies s[i] == (h + uniform(t, true))[i] by {
            if i < d.len() {
                assert(d[i] == (h + uniform(trailing_filled(d), true))[i]);
            }
        }
        assert(s =~= h + uniform(t, true));
    }
}

/// A fully known line.
#[derive(Clone, Debug)]
pub struct PaintedColumn {
    pub cells: Vec<bool>,
}

/// A clue: run lengths in order.
#[derive(Clone, Debug)]
pub struct ColumnInfo {
    pub info: Vec<usize>,
}

impl View for PaintedColumn {
    type V = Seq<bool>;

    open spec fn view(&self) -> Seq<bool> {
        self.cells@
    }
}

impl View for ColumnInfo {
    type V = Seq<nat>;

    open spec fn view(&self) -> Seq<nat> {
        Seq::new(self.info@.len(), |i: int| self.info@[i] as nat)
    }
}

impl ColumnInfo {
    pub fn new(info: Vec<usize>) -> (res: ColumnInfo)
        ensures
            res.info == info,
    {
        ColumnInfo { info }
    }
}

impl PaintedColumn {
    pub fn new(cells: Vec<bool>) -> (res: PaintedColumn)
        ensures
            res.cells == cells,
    {
        PaintedColumn { cells }
    }

    /// The clue of this line.
    pub fn get_info(&self) -> (res: ColumnInfo)
        ensures
            res@ == clue_of(self@),
    {
        let mut state: usize = 0;
        let mut info: Vec<usize> = Vec::new();
        let n = self.cells.len();
        let mut k: usize = 0;
        while k < n
            invariant
                n == self.cells.len(),
                k <= n,
                state == trailing_filled(self@.take(k as int)),
                state <= k,
                clue_of(self@.take(k as int)) == (if state > 0 {
                    Seq::new(info@.len(), |i: int| info@[i] as nat).push(state as nat)
                } else {
                    Seq::new(info@.len(), |i: int| info@[i] as nat)
                }),
            decreases n - k,
        {
            let ghost before = self@.take(k as int);
            let ghost shown = Seq::new(info@.len(), |i: int| info@[i] as nat);
            proof {
                assert(self@.take(k + 1).drop_last() =~= before);
            }
            if self.cells[k] {
                proof {
                    lemma_runs_open(before, 1);
                    if state > 0 {
                        assert(shown.push(state as nat).drop_last() =~= shown);
                    }
                }
                state += 1;
            } else if state != 0 {
                info.push(state);
                proof {
                    assert(Seq::new(info@.len(), |i: int| info@[i] as nat) =~= shown.push(
                        state as nat,
                    ));
                }
                state = 0;
            }
            k += 1;
        }
        proof {
            assert(self@.take(n as int) =~= self@);
        }
        if state != 0 {
            info.push(state);
            proof {
                assert(Seq::new(info@.len(), |i: int| info@[i] as nat) =~= clue_of(self@));
            }
        }
        ColumnInfo { info }
    }
}

} // verus!
