//! Partly known lines, and the solver that finds the cells of a line that
//! its clue forces.

use vstd::prelude::*;
use crate::clue::{clue_of, lemma_runs_positive, uniform, ColumnInfo, PaintedColumn};
use crate::filling::{
    agrees, base_candidate, feasible, fits, kept, known, lemma_base_candidate, lemma_base_complete,
    lemma_blank_line, lemma_merge_union, lemma_next_candidate, lemma_next_complete,
    lemma_solutions_split, lemma_summary_total, lemma_span_prefix, lemma_too_long, line_solution,
    merge_into, merge_lines, next_candidate, solutions, solutions_at, solves, span, summarises,
};

verus! {

/// A partly known line: each cell is filled (`Some(true)`), empty
/// (`Some(false)`) or unknown (`None`).
#[derive(Clone, Debug)]
pub struct Column {
    pub cells: Vec<Option<bool>>,
}

/// No fully known line has the clue and agrees with the fixed cells.
#[derive(Clone, Copy, Debug, PartialEq, Eq)]
pub struct Infeasible;

impl View for Column {
    type V = Seq<Option<bool>>;

    open spec fn view(&self) -> Seq<Option<bool>> {
        self.cells@
    }
}

/// The line that shows the cells of `truth` at the positions that `shown`
/// marks, and no others.
pub open spec fn revealed(truth: Seq<bool>, shown: Seq<bool>) -> Seq<Option<bool>> {
    Seq::new(
        truth.len(),
        |i: int|
            if i < shown.len() && shown[i] {
                Some(truth[i])
            } else {
                None
            },
    )
}

/// The number of known cells of a line.
pub open spec fn known_count(line: Seq<Option<bool>>) -> nat
    decreases line.len(),
{
    if line.len() == 0 {
        0
    } else {
        known_count(line.drop_last()) + if line.last() is Some {
            1nat
        } else {
            0nat
        }
    }
}

/// The cells of a line that may be missing.
pub open spec fn line_of(c: Option<Column>) -> Option<Seq<Option<bool>>> {
    match c {
        Some(c) => Some(c@),
        None => None,
    }
}

/// Whether two cells are equal.
pub fn same_cell(a: Option<bool>, b: Option<bool>) -> (r: bool)
    ensures
        r == (a == b),
{
    match (a, b) {
        (None, None) => true,
        (Some(x), Some(y)) => x == y,
        _ => false,
    }
}

impl Column {
    pub fn new(cells: Vec<Option<bool>>) -> (res: Column)
        ensures
            res.cells == cells,
    {
        Column { cells }
    }

    /// The fully known line as a partly known one.
    pub fn from_painted(value: &PaintedColumn) -> (res: Column)
        ensures
            res@ == known(value@),
    {
        let mut cells: Vec<Option<bool>> = Vec::new();
        let n = value.cells.len();
        let mut i: usize = 0;
        while i < n
            invariant
                i <= n,
                n == value.cells.len(),
                cells@ == known(value@.take(i as int)),
            decreases n - i,
        {
            cells.push(Some(value.cells[i]));
            proof {
                assert(cells@ =~= known(value@.take(i + 1)));
            }
            i += 1;
        }
        proof {
            assert(value@.take(n as int) =~= value@);
        }
        Column { cells }
    }

    /// The cells of `column` that `shown` marks, and unknown cells where it
    /// marks none.
    pub fn reveal_from(column: &PaintedColumn, shown: &Vec<bool>) -> (res: Column)
        ensures
            res@ == revealed(column@, shown@),
            agrees(column@, res@),
    {
        let mut cells: Vec<Option<bool>> = Vec::new();
        let n = column.cells.len();
        let mut i: usize = 0;
        while i < n
            invariant
                i <= n,
                n == column@.len(),
                cells@ == revealed(column@, shown@).take(i as int),
            decreases n - i,
        {
            if i < shown.len() && shown[i] {
                cells.push(Some(column.cells[i]));
            } else {
                cells.push(None);
            }
            proof {
                assert(cells@ =~= revealed(column@, shown@).take(i + 1));
            }
            i += 1;
        }
        proof {
            assert(revealed(column@, shown@).take(n as int) =~= revealed(column@, shown@));
        }
        Column { cells }
    }

    /// The number of known cells.
    pub fn painted_count(&self) -> (res: usize)
        ensures
            res == known_count(self@),
    {
        let mut count: usize = 0;
        let mut i: usize = 0;
        proof {
            assert(self@.take(0) =~= Seq::empty());
        }
        while i < self.cells.len()
            invariant
                i <= self@.len(),
                count == known_count(self@.take(i as int)),
                count <= i,
            decreases self@.len() - i,
        {
            proof {
                assert(self@.take(i + 1).drop_last() =~= self@.take(i as int));
            }
            if self.cells[i].is_some() {
                count += 1;
            }
            i += 1;
        }
        proof {
            assert(self@.take(self@.len() as int) =~= self@);
        }
        count
    }

    /// A line of `lenght` cells that all hold `value`.
    pub fn full(lenght: usize, value: Option<bool>) -> (res: Column)
        ensures
            res@ == uniform(lenght as nat, value),
    {
        let mut cells: Vec<Option<bool>> = Vec::new();
        let mut i: usize = 0;
        while i < lenght
            invariant
                i <= lenght,
                cells@ == uniform(i as nat, value),
            decreases lenght - i,
        {
            cells.push(value);
            proof {
                assert(cells@ =~= uniform((i + 1) as nat, value));
            }
            i += 1;
        }
        Column { cells }
    }

    /// The cells from `start` up to `end`, without `end`.
    pub fn slice(&self, start: usize, end: usize) -> (res: Column)
        requires
            start <= end <= self@.len(),
        ensures
            res@ == self@.subrange(start as int, end as int),
    {
        let mut cells: Vec<Option<bool>> = Vec::new();
        let mut i: usize = start;
        while i < end
            invariant
                start <= i <= end <= self@.len(),
                cells@ == self@.subrange(start as int, i as int),
            decreases end - i,
        {
            cells.push(self.cells[i]);
            proof {
                assert(cells@ =~= self@.subrange(start as int, i + 1));
            }
            i += 1;
        }
        Column { cells }
    }

    /// This line followed by `rhs`.
    pub fn append(self, rhs: Column) -> (res: Column)
        ensures
            res@ == self@ + rhs@,
    {
        let mut cells = self.cells;
        let n = rhs.cells.len();
        let mut i: usize = 0;
        while i < n
            invariant
                i <= n,
                n == rhs@.len(),
                cells@ == self@ + rhs@.take(i as int),
            decreases n - i,
        {
            cells.push(rhs.cells[i]);
            proof {
                assert(cells@ =~= self@ + rhs@.take(i + 1));
            }
            i += 1;
        }
        proof {
            assert(rhs@.take(n as int) =~= rhs@);
        }
        Column { cells }
    }

    /// Whether no cell of this line contradicts the cell of `other` at its
    /// position.
    pub fn fit_in(&self, other: &Column) -> (r: bool)
        requires
            self@.len() == other@.len(),
        ensures
            r == fits(self@, other@),
    {
        let n = self.cells.len();
        let mut i: usize = 0;
        while i < n
            invariant
                i <= n,
                n == self@.len(),
                n == other@.len(),
                forall|p: int|
                    0 <= p < i ==> (#[trigger] self@[p] is None || other@[p] is None || self@[p]
                        == other@[p]),
            decreases n - i,
        {
            let a = self.cells[i];
            let b = other.cells[i];
            if a.is_some() && b.is_some() && !same_cell(a, b) {
                proof {
                    assert(!(self@[i as int] is None || other@[i as int] is None || self@[i as int]
                        == other@[i as int]));
                }
                return false;
            }
            i += 1;
        }
        true
    }

    /// The merge of this line and `other`: a cell keeps its value where both
    /// lines hold the same, and is unknown elsewhere.
    pub fn merge_lines(&self, other: &Column) -> (res: Column)
        requires
            self@.len() == other@.len(),
        ensures
            res@ == merge_lines(self@, other@),
    {
        let mut cells: Vec<Option<bool>> = Vec::new();
        let n = self.cells.len();
        let mut i: usize = 0;
        while i < n
            invariant
                i <= n,
                n == self@.len(),
                n == other@.len(),
                cells@ == merge_lines(self@, other@).take(i as int),
            decreases n - i,
        {
            let a = self.cells[i];
            let b = other.cells[i];
            if same_cell(a, b) {
                cells.push(a);
            } else {
                cells.push(None);
            }
            proof {
                assert(cells@ =~= merge_lines(self@, other@).take(i + 1));
            }
            i += 1;
        }
        proof {
            assert(merge_lines(self@, other@).take(n as int) =~= merge_lines(self@, other@));
        }
        Column { cells }
    }

    /// Merges this line into what `column` has gathered: it becomes this
    /// line where it held none.
    pub fn add_info(self, column: &mut Option<Column>)
        requires
            line_of(*old(column)) matches Some(l) ==> l.len() == self@.len(),
        ensures
            line_of(*final(column)) == Some(merge_into(line_of(*old(column)), self@)),
    {
        let merged = match column {
            Some(c) => c.merge_lines(&self),
            None => self,
        };
        *column = Some(merged);
    }

    /// Whether this line holds nothing against the fully known `column`.
    pub fn verify(self, column: PaintedColumn) -> (r: bool)
        requires
            self@.len() == column@.len(),
        ensures
            r == fits(self@, known(column@)),
    {
        let other = Column::from_painted(&column);
        self.fit_in(&other)
    }

    /// The merge of every placement of a single run of `b` in this line
    /// that no fixed cell contradicts: one entry for each prefix of the line.
    fn first_level(&self, b: usize) -> (pn: Vec<Option<Column>>)
        requires
            b > 0,
        ensures
            pn.len() == self@.len(),
            forall|j: int|
                0 <= j < pn.len() ==> summarises(
                    #[trigger] line_of(pn@[j]),
                    j + 1,
                    solutions(seq![b as nat], self@.take(j + 1), j + 2),
                ),
    {
        let n = self.cells.len();
        let ghost clue = seq![b as nat];
        let mut pn: Vec<Option<Column>> = Vec::new();
        let mut j: usize = 0;
        while j < n
            invariant
                b > 0,
                j <= n,
                n == self@.len(),
                pn.len() == j,
                clue == seq![b as nat],
                forall|i: int|
                    0 <= i < j ==> summarises(
                        #[trigger] line_of(pn@[i]),
                        i + 1,
                        solutions(clue, self@.take(i + 1), i + 2),
                    ),
            decreases n - j,
        {
            let prefix = self.slice(0, j + 1);
            let ghost fixed = prefix@;
            let mut acc: Option<Column> = None;
            let mut t: usize = 0;
            while b <= j + 1 && t <= j + 1 - b
                invariant
                    b > 0,
                    j < n,
                    clue == seq![b as nat],
                    fixed == prefix@,
                    fixed.len() == j + 1,
                    b <= j + 1 ==> t <= j + 2 - b,
                    b > j + 1 ==> t == 0,
                    summarises(line_of(acc), j + 1, solutions(clue, fixed, t as int)),
                decreases j + 2 - t,
            {
                let cand = Column::full(j + 1 - t - b, Some(false)).append(
                    Column::full(b, Some(true)),
                ).append(Column::full(t, Some(false)));
                proof {
                    assert(cand@ == base_candidate(j + 1, b as nat, t as nat));
                    lemma_base_candidate(b as nat, fixed, t as nat);
                    lemma_solutions_split(clue, fixed, t as int);
                    lemma_merge_union(
                        line_of(acc),
                        kept(cand@, fixed),
                        j + 1,
                        solutions(clue, fixed, t as int),
                        solutions_at(clue, fixed, t as int),
                    );
                }
                if cand.fit_in(&prefix) {
                    cand.add_info(&mut acc);
                }
                t += 1;
            }
            proof {
                lemma_base_complete(b as nat, fixed, t as int);
                assert(fixed =~= self@.take(j + 1));
            }
            pn.push(acc);
            j += 1;
        }
        pn
    }

    /// From the merges for the runs before `clue.last()`, the merges for
    /// the runs up to it: one for each prefix of the line that has room for
    /// them, that is, for each that ends at `space` or behind it.
    fn next_level(
        &self,
        pn: &mut Vec<Option<Column>>,
        b: usize,
        space: usize,
        Ghost(clue): Ghost<Seq<nat>>,
    )
        requires
            b > 0,
            clue.len() >= 2,
            clue.last() == b,
            space + 1 == span(clue),
            space >= b + 1,
            space < self@.len(),
            old(pn).len() == self@.len(),
            forall|j: int|
                space - b - 1 <= j < old(pn).len() ==> summarises(
                    #[trigger] line_of(old(pn)@[j]),
                    j + 1,
                    solutions(clue.drop_last(), self@.take(j + 1), j + 2),
                ),
        ensures
            final(pn).len() == self@.len(),
            forall|j: int|
                space <= j < final(pn).len() ==> summarises(
                    #[trigger] line_of(final(pn)@[j]),
                    j + 1,
                    solutions(clue, self@.take(j + 1), j + 2),
                ),
    {
        let n = self.cells.len();
        let mut j: usize = n;
        while j > space
            invariant
                b > 0,
                clue.len() >= 2,
                clue.last() == b,
                space + 1 == span(clue),
                space >= b + 1,
                space <= j <= n,
                n == self@.len(),
                pn.len() == n,
                forall|i: int|
                    space - b - 1 <= i < j ==> summarises(
                        #[trigger] line_of(pn@[i]),
                        i + 1,
                        solutions(clue.drop_last(), self@.take(i + 1), i + 2),
                    ),
                forall|i: int|
                    j <= i < n ==> summarises(
                        #[trigger] line_of(pn@[i]),
                        i + 1,
                        solutions(clue, self@.take(i + 1), i + 2),
                    ),
            decreases j,
        {
            j -= 1;
            let prefix = self.slice(0, j + 1);
            let ghost fixed = prefix@;
            let mut acc: Option<Column> = None;
            let mut t: usize = 0;
            while t <= j - space
                invariant
                    b > 0,
                    clue.len() >= 2,
                    clue.last() == b,
                    space >= b + 1,
                    space <= j < n,
                    n == self@.len(),
                    pn.len() == n,
                    fixed == prefix@,
                    fixed == self@.take(j + 1),
                    t <= j - space + 1,
                    summarises(line_of(acc), j + 1, solutions(clue, fixed, t as int)),
                    forall|i: int|
                        space - b - 1 <= i < j ==> summarises(
                            #[trigger] line_of(pn@[i]),
                            i + 1,
                            solutions(clue.drop_last(), self@.take(i + 1), i + 2),
                        ),
                decreases j + 1 - t,
            {
                let idx = j - b - 1 - t;
                proof {
                    assert(fixed.take(idx + 1) =~= self@.take(idx + 1));
                    assert(summarises(
                        line_of(pn@[idx as int]),
                        idx + 1,
                        solutions(clue.drop_last(), self@.take(idx + 1), idx + 2),
                    ));
                    lemma_next_candidate(clue, fixed, t as nat, line_of(pn@[idx as int]));
                    lemma_solutions_split(clue, fixed, t as int);
                }
                match &pn[idx] {
                    None => {
                        proof {
                            lemma_merge_union(
                                line_of(acc),
                                None,
                                j + 1,
                                solutions(clue, fixed, t as int),
                                solutions_at(clue, fixed, t as int),
                            );
                        }
                    },
                    Some(prev) => {
                        let cand = prev.slice(0, prev.cells.len()).append(
                            Column::full(1, Some(false)),
                        ).append(Column::full(b, Some(true))).append(
                            Column::full(t, Some(false)),
                        );
                        proof {
                            assert(prev@.subrange(0, prev@.len() as int) =~= prev@);
                            assert(cand@ == next_candidate(prev@, b as nat, t as nat));
                            lemma_merge_union(
                                line_of(acc),
                                kept(cand@, fixed),
                                j + 1,
                                solutions(clue, fixed, t as int),
                                solutions_at(clue, fixed, t as int),
                            );
                        }
                        if cand.fit_in(&prefix) {
                            cand.add_info(&mut acc);
                        }
                    },
                }
                t += 1;
            }
            proof {
                lemma_next_complete(clue, fixed, t as int);
            }
            pn.set(j, acc);
        }
    }

    /// The cells that the clue `info` forces in this line: a cell of the
    /// result holds a value exactly where every fully known line with that
    /// clue that agrees with the known cells of this line holds it. Fails
    /// exactly where there is no such line.
    pub fn try_fit(&mut self, info: &ColumnInfo) -> (res: Result<Column, Infeasible>)
        ensures
            *final(self) == *old(self),
            res is Ok <==> feasible(info@, old(self)@),
            res matches Ok(c) ==> c@ == line_solution(info@, old(self)@),
    {
        let n = self.cells.len();
        let k = info.info.len();
        let ghost clue = info@;
        let ghost fixed = self@;
        if k == 0 {
            let blank = Column::full(n, Some(false));
            proof {
                lemma_blank_line(fixed);
                assert(clue =~= Seq::empty());
            }
            if blank.fit_in(self) {
                return Ok(blank);
            } else {
                return Err(Infeasible);
            }
        }
        let mut need: usize = 0;
        let mut z: usize = 0;
        while z < k
            invariant
                z <= k,
                k == info.info@.len(),
                clue == info@,
                fixed == self@,
                n == fixed.len(),
                need == span(clue.take(z as int)),
                need <= n,
                forall|i: int| 0 <= i < z ==> info.info@[i] > 0,
            decreases k - z,
        {
            let b = info.info[z];
            if b == 0 {
                proof {
                    assert forall|f: Seq<bool>| !solves(f, clue, fixed) by {
                        lemma_runs_positive(f, 0);
                        if clue_of(f) == clue {
                            assert(clue_of(f)[z as int] > 0);
                        }
                    }
                }
                return Err(Infeasible);
            }
            proof {
                assert(clue.take(z + 1).drop_last() =~= clue.take(z as int));
            }
            let gap: usize = if z == 0 {
                0
            } else {
                1
            };
            if b > n || need > n - b || n - b - need < gap {
                proof {
                    lemma_too_long(clue, fixed, z + 1);
                }
                return Err(Infeasible);
            }
            need = need + gap + b;
            z += 1;
        }
        proof {
            assert(clue.take(k as int) =~= clue);
            assert(clue.take(1) =~= seq![info.info@[0] as nat]);
        }
        let mut pn = self.first_level(info.info[0]);
        let mut space: usize = info.info[0] - 1;
        let mut lvl: usize = 1;
        while lvl < k
            invariant
                1 <= lvl <= k,
                k == info.info@.len(),
                clue == info@,
                n == self@.len(),
                pn.len() == n,
                span(clue) <= n,
                space + 1 == span(clue.take(lvl as int)),
                forall|i: int| 0 <= i < k ==> info.info@[i] > 0,
                forall|j: int|
                    space <= j < n ==> summarises(
                        #[trigger] line_of(pn@[j]),
                        j + 1,
                        solutions(clue.take(lvl as int), self@.take(j + 1), j + 2),
                    ),
            decreases k - lvl,
        {
            let b = info.info[lvl];
            proof {
                assert(clue.take(lvl + 1).drop_last() =~= clue.take(lvl as int));
                lemma_span_prefix(clue, lvl + 1);
            }
            space = space + b + 1;
            self.next_level(&mut pn, b, space, Ghost(clue.take(lvl + 1)));
            lvl += 1;
        }
        proof {
            assert(clue.take(k as int) =~= clue);
            assert(self@.take(n as int) =~= self@);
            lemma_summary_total(line_of(pn@[n - 1]), clue, fixed);
        }
        match &pn[n - 1] {
            None => Err(Infeasible),
            Some(c) => {
                proof {
                    assert(c@.subrange(0, n as int) =~= c@);
                }
                Ok(c.slice(0, n))
            },
        }
    }
}

} // verus!
