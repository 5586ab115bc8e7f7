//! Propagation: the lines of a board are solved, rows first and columns
//! after them, pass after pass, until a pass determines no further cell.

use vstd::prelude::*;
use crate::board::{column_clues_of, column_of, row_clues_of, shaped, Board, PaintedBoard};
use crate::filling::{agrees, feasible, forced, lemma_solution_sound, line_solution, solves};
use crate::line::{known_count, Infeasible};

verus! {

/// The number of known cells of a grid.
pub open spec fn grid_count(grid: Seq<Seq<Option<bool>>>) -> nat
    decreases grid.len(),
{
    if grid.len() == 0 {
        0
    } else {
        grid_count(grid.drop_last()) + known_count(grid.last())
    }
}

/// `b` holds every known cell of `a`, with its value.
pub open spec fn refines(a: Seq<Option<bool>>, b: Seq<Option<bool>>) -> bool {
    &&& a.len() == b.len()
    &&& forall|p: int| 0 <= p < a.len() ==> (#[trigger] a[p] is Some ==> b[p] == a[p])
}

/// `b` holds every known cell of the grid `a`, with its value.
pub open spec fn grid_refines(a: Seq<Seq<Option<bool>>>, b: Seq<Seq<Option<bool>>>) -> bool {
    &&& a.len() == b.len()
    &&& forall|r: int| 0 <= r < a.len() ==> refines(#[trigger] a[r], b[r])
}

/// Every row has a solution for its clue.
pub open spec fn rows_feasible(grid: Seq<Seq<Option<bool>>>, clues: Seq<Seq<nat>>) -> bool {
    forall|r: int| 0 <= r < grid.len() ==> feasible(#[trigger] clues[r], grid[r])
}

/// The grid in which every row holds the cells that its clue forces.
pub open spec fn rows_solved(grid: Seq<Seq<Option<bool>>>, clues: Seq<Seq<nat>>) -> Seq<
    Seq<Option<bool>>,
> {
    Seq::new(grid.len(), |r: int| line_solution(clues[r], grid[r]))
}

/// Every column has a solution for its clue.
pub open spec fn columns_feasible(
    grid: Seq<Seq<Option<bool>>>,
    width: nat,
    clues: Seq<Seq<nat>>,
) -> bool {
    forall|c: int| 0 <= c < width ==> feasible(#[trigger] clues[c], column_of(grid, c))
}

/// The grid in which every column holds the cells that its clue forces.
pub open spec fn columns_solved(
    grid: Seq<Seq<Option<bool>>>,
    width: nat,
    clues: Seq<Seq<nat>>,
) -> Seq<Seq<Option<bool>>> {
    Seq::new(
        grid.len(),
        |r: int| Seq::new(width, |c: int| line_solution(clues[c], column_of(grid, c))[r]),
    )
}

/// One pass: all rows are solved, then all columns of what that gave. There
/// is no result where one of these lines has no solution.
pub open spec fn pass(
    grid: Seq<Seq<Option<bool>>>,
    width: nat,
    rows: Seq<Seq<nat>>,
    columns: Seq<Seq<nat>>,
) -> Option<Seq<Seq<Option<bool>>>> {
    if rows_feasible(grid, rows) && columns_feasible(rows_solved(grid, rows), width, columns) {
        Some(columns_solved(rows_solved(grid, rows), width, columns))
    } else {
        None
    }
}

/// `m` passes, one after the other.
pub open spec fn passes(
    grid: Seq<Seq<Option<bool>>>,
    width: nat,
    rows: Seq<Seq<nat>>,
    columns: Seq<Seq<nat>>,
    m: nat,
) -> Option<Seq<Seq<Option<bool>>>>
    decreases m,
{
    if m == 0 {
        Some(grid)
    } else {
        match passes(grid, width, rows, columns, (m - 1) as nat) {
            None => None,
            Some(g) => pass(g, width, rows, columns),
        }
    }
}

/// A line with more known cells holds at least as many of them, and the
/// same line where it holds as many.
pub proof fn lemma_count_refines(a: Seq<Option<bool>>, b: Seq<Option<bool>>)
    requires
        refines(a, b),
    ensures
        known_count(a) <= known_count(b) <= b.len(),
        known_count(a) == known_count(b) ==> a == b,
    decreases a.len(),
{
    if a.len() > 0 {
        let x = a.drop_last();
        let y = b.drop_last();
        assert(refines(x, y)) by {
            assert forall|p: int| 0 <= p < x.len() && #[trigger] x[p] is Some implies y[p]
                == x[p] by {
                assert(a[p] is Some);
            }
        }
        lemma_count_refines(x, y);
        assert(a.last() is Some ==> b.last() == a.last()) by {
            assert(a[a.len() - 1] is Some ==> b[a.len() - 1] == a[a.len() - 1]);
        }
        if known_count(a) == known_count(b) {
            assert(x == y);
            assert(a =~= x.push(a.last()));
            assert(b =~= y.push(b.last()));
        }
    } else {
        assert(a =~= b);
    }
}

/// A grid with more known cells holds at least as many of them, and the
/// same grid where it holds as many.
pub proof fn lemma_grid_count_refines(a: Seq<Seq<Option<bool>>>, b: Seq<Seq<Option<bool>>>)
    requires
        grid_refines(a, b),
    ensures
        grid_count(a) <= grid_count(b),
        grid_count(a) == grid_count(b) ==> a == b,
    decreases a.len(),
{
    if a.len() > 0 {
        let x = a.drop_last();
        let y = b.drop_last();
        assert(grid_refines(x, y)) by {
            assert forall|r: int| 0 <= r < x.len() implies refines(#[trigger] x[r], y[r]) by {
                assert(refines(a[r], b[r]));
            }
        }
        lemma_grid_count_refines(x, y);
        assert(refines(a[a.len() - 1], b[a.len() - 1]));
        lemma_count_refines(a.last(), b.last());
        if grid_count(a) == grid_count(b) {
            assert(a =~= x.push(a.last()));
            assert(b =~= y.push(b.last()));
        }
    } else {
        assert(a =~= b);
    }
}

/// A grid holds no more known cells than it has cells.
pub proof fn lemma_grid_count_bound(grid: Seq<Seq<Option<bool>>>, width: nat, height: nat)
    requires
        shaped(grid, width, height),
    ensures
        grid_count(grid) <= width * height,
    decreases height,
{
    if height > 0 {
        let x = grid.drop_last();
        assert(shaped(x, width, (height - 1) as nat)) by {
            assert forall|r: int| 0 <= r < height - 1 implies (#[trigger] x[r]).len() == width by {
                assert(grid[r].len() == width);
            }
        }
        lemma_grid_count_bound(x, width, (height - 1) as nat);
        assert(grid[height - 1].len() == width);
        lemma_count_refines(grid.last(), grid.last());
        assert(width * (height - 1) + width == width * height) by (nonlinear_arith);
    } else {
        assert(width * height == 0) by (nonlinear_arith)
            requires
                height == 0,
        ;
    }
}

/// The cells that a clue forces hold every cell that was known before.
pub proof fn lemma_solution_refines(clue: Seq<nat>, fixed: Seq<Option<bool>>)
    requires
        feasible(clue, fixed),
    ensures
        refines(fixed, line_solution(clue, fixed)),
{
    let w = choose|f: Seq<bool>| solves(f, clue, fixed);
    let s = line_solution(clue, fixed);
    assert forall|p: int| 0 <= p < fixed.len() && #[trigger] fixed[p] is Some implies s[p]
        == fixed[p] by {
        let v = fixed[p].unwrap();
        assert(forced(clue, fixed, p, v)) by {
            assert forall|f: Seq<bool>| solves(f, clue, fixed) implies f[p] == v by {
                assert(fixed[p] is Some ==> fixed[p] == Some(f[p]));
            }
        }
        if forced(clue, fixed, p, !v) {
            assert(w[p] == !v);
        }
    }
}

/// A pass keeps every known cell, and the shape of the grid.
pub proof fn lemma_pass_refines(
    grid: Seq<Seq<Option<bool>>>,
    width: nat,
    rows: Seq<Seq<nat>>,
    columns: Seq<Seq<nat>>,
)
    requires
        shaped(grid, width, grid.len()),
        pass(grid, width, rows, columns) is Some,
    ensures
        grid_refines(grid, pass(grid, width, rows, columns).unwrap()),
        shaped(pass(grid, width, rows, columns).unwrap(), width, grid.len()),
        grid_count(grid) <= grid_count(pass(grid, width, rows, columns).unwrap()),
{
    let g1 = rows_solved(grid, rows);
    let g2 = columns_solved(g1, width, columns);
    assert forall|r: int| 0 <= r < grid.len() implies refines(#[trigger] grid[r], g2[r]) by {
        assert(feasible(rows[r], grid[r]));
        lemma_solution_refines(rows[r], grid[r]);
        assert(grid[r].len() == width);
        assert forall|p: int| 0 <= p < width && #[trigger] grid[r][p] is Some implies g2[r][p]
            == grid[r][p] by {
            assert(g1[r][p] == grid[r][p]);
            assert(feasible(columns[p], column_of(g1, p)));
            lemma_solution_refines(columns[p], column_of(g1, p));
            assert(column_of(g1, p)[r] is Some);
        }
    }
    lemma_grid_count_refines(grid, g2);
}

/// Once passes have reached a grid that a pass leaves as it is, any number
/// of passes has a result, and any greater number has that grid as its result.
pub proof fn lemma_passes_settled(
    grid: Seq<Seq<Option<bool>>>,
    width: nat,
    rows: Seq<Seq<nat>>,
    columns: Seq<Seq<nat>>,
    m: nat,
    k: nat,
)
    requires
        passes(grid, width, rows, columns, m) is Some,
        pass(passes(grid, width, rows, columns, m).unwrap(), width, rows, columns) == passes(
            grid,
            width,
            rows,
            columns,
            m,
        ),
    ensures
        passes(grid, width, rows, columns, k) is Some,
        k >= m ==> passes(grid, width, rows, columns, k) == passes(grid, width, rows, columns, m),
    decreases k,
{
    if k > m {
        lemma_passes_settled(grid, width, rows, columns, m, (k - 1) as nat);
    } else if k < m {
        lemma_passes_before(grid, width, rows, columns, m, k);
    }
}

/// Passes settle on one grid only: two grids that passes reach and that a
/// pass leaves as they are, are the same grid.
pub proof fn lemma_settled_unique(
    grid: Seq<Seq<Option<bool>>>,
    width: nat,
    rows: Seq<Seq<nat>>,
    columns: Seq<Seq<nat>>,
    a: nat,
    b: nat,
)
    requires
        passes(grid, width, rows, columns, a) is Some,
        passes(grid, width, rows, columns, b) is Some,
        pass(passes(grid, width, rows, columns, a).unwrap(), width, rows, columns) == passes(
            grid,
            width,
            rows,
            columns,
            a,
        ),
        pass(passes(grid, width, rows, columns, b).unwrap(), width, rows, columns) == passes(
            grid,
            width,
            rows,
            columns,
            b,
        ),
    ensures
        passes(grid, width, rows, columns, a) == passes(grid, width, rows, columns, b),
{
    let k = if a >= b {
        a
    } else {
        b
    };
    lemma_passes_settled(grid, width, rows, columns, a, k);
    lemma_passes_settled(grid, width, rows, columns, b, k);
}

/// Where `m` passes have a result, fewer passes have one.
pub proof fn lemma_passes_before(
    grid: Seq<Seq<Option<bool>>>,
    width: nat,
    rows: Seq<Seq<nat>>,
    columns: Seq<Seq<nat>>,
    m: nat,
    k: nat,
)
    requires
        passes(grid, width, rows, columns, m) is Some,
        k <= m,
    ensures
        passes(grid, width, rows, columns, k) is Some,
    decreases m,
{
    if k < m {
        lemma_passes_before(grid, width, rows, columns, (m - 1) as nat, k);
    }
}

/// On a grid that a pass leaves as it is, any number of passes does.
pub proof fn lemma_passes_fixed(
    grid: Seq<Seq<Option<bool>>>,
    width: nat,
    rows: Seq<Seq<nat>>,
    columns: Seq<Seq<nat>>,
    m: nat,
)
    requires
        pass(grid, width, rows, columns) == Some(grid),
    ensures
        passes(grid, width, rows, columns, m) == Some(grid),
    decreases m,
{
    if m > 0 {
        lemma_passes_fixed(grid, width, rows, columns, (m - 1) as nat);
    }
}

impl Board {
    /// The number of known cells.
    pub fn painted_count(&self) -> (res: usize)
        requires
            self.wf(),
        ensures
            res == grid_count(self@),
            res <= self.width * self.height,
    {
        let mut count: usize = 0;
        let mut j: usize = 0;
        proof {
            lemma_grid_count_bound(self@, self.width as nat, self.height as nat);
            assert(self@.take(0) =~= Seq::empty());
        }
        while j < self.height
            invariant
                self.wf(),
                j <= self.height,
                count == grid_count(self@.take(j as int)),
                grid_count(self@) <= self.width * self.height,
            decreases self.height - j,
        {
            let row = self.get_row(j);
            let mut i: usize = 0;
            let ghost base = count;
            proof {
                assert(self@.take(j + 1).drop_last() =~= self@.take(j as int));
                assert(row@.take(0) =~= Seq::empty());
                lemma_tail_count(self@, j + 1);
                lemma_count_refines(row@, row@);
            }
            while i < row.cells.len()
                invariant
                    i <= row@.len(),
                    count == base + known_count(row@.take(i as int)),
                    base + known_count(row@) <= usize::MAX,
                decreases row@.len() - i,
            {
                proof {
                    assert(row@.take(i + 1).drop_last() =~= row@.take(i as int));
                    lemma_prefix_count(row@, i + 1);
                }
                if row.cells[i].is_some() {
                    count += 1;
                }
                i += 1;
            }
            proof {
                assert(row@.take(row@.len() as int) =~= row@);
            }
            j += 1;
        }
        proof {
            assert(self@.take(self.height as int) =~= self@);
        }
        count
    }
}

impl Board {
    /// Solves every row for its clue and writes what is forced over it.
    /// Stops at the first row without a solution.
    pub fn solve_rows(&mut self) -> (res: Result<(), Infeasible>)
        requires
            old(self).wf(),
        ensures
            final(self).wf(),
            final(self).width == old(self).width,
            final(self).height == old(self).height,
            final(self).infos == old(self).infos,
            res is Ok <==> rows_feasible(old(self)@, old(self).infos.row_clues()),
            res is Ok ==> final(self)@ == rows_solved(old(self)@, old(self).infos.row_clues()),
            grid_refines(old(self)@, final(self)@),
    {
        let ghost g0 = self@;
        let ghost clues = self.infos.row_clues();
        let mut index: usize = 0;
        proof {
            lemma_refines_self(g0);
        }
        while index < self.height
            invariant
                self.wf(),
                self.width == old(self).width,
                self.height == old(self).height,
                self.infos == old(self).infos,
                g0 == old(self)@,
                clues == self.infos.row_clues(),
                index <= self.height,
                forall|r: int| 0 <= r < index ==> feasible(#[trigger] clues[r], g0[r]),
                grid_refines(g0, self@),
                self@ == Seq::new(
                    self.height as nat,
                    |r: int|
                        if r < index {
                            line_solution(clues[r], g0[r])
                        } else {
                            g0[r]
                        },
                ),
            decreases self.height - index,
        {
            let mut row = self.get_row(index);
            match row.try_fit(&self.infos.rows[index]) {
                Ok(solved) => {
                    let ghost before = self@;
                    self.set_row(index, solved);
                    proof {
                        lemma_solution_refines(clues[index as int], g0[index as int]);
                        assert forall|r: int| 0 <= r < g0.len() implies refines(
                            #[trigger] g0[r],
                            self@[r],
                        ) by {
                            assert(refines(g0[r], before[r]));
                        }
                        assert(self@ =~= Seq::new(
                            self.height as nat,
                            |r: int|
                                if r < index + 1 {
                                    line_solution(clues[r], g0[r])
                                } else {
                                    g0[r]
                                },
                        ));
                    }
                },
                Err(e) => {
                    proof {
                        assert(!feasible(clues[index as int], g0[index as int]));
                    }
                    return Err(e);
                },
            }
            index += 1;
        }
        proof {
            assert(self@ =~= rows_solved(g0, clues));
        }
        Ok(())
    }

    /// Solves every column for its clue and writes what is forced over it.
    /// Stops at the first column without a solution.
    pub fn solve_columns(&mut self) -> (res: Result<(), Infeasible>)
        requires
            old(self).wf(),
        ensures
            final(self).wf(),
            final(self).width == old(self).width,
            final(self).height == old(self).height,
            final(self).infos == old(self).infos,
            res is Ok <==> columns_feasible(
                old(self)@,
                old(self).width as nat,
                old(self).infos.column_clues(),
            ),
            res is Ok ==> final(self)@ == columns_solved(
                old(self)@,
                old(self).width as nat,
                old(self).infos.column_clues(),
            ),
            grid_refines(old(self)@, final(self)@),
    {
        let ghost g1 = self@;
        let ghost clues = self.infos.column_clues();
        let mut index: usize = 0;
        proof {
            lemma_refines_self(g1);
            assert(self@ =~~= Seq::new(
                self.height as nat,
                |r: int|
                    Seq::new(
                        self.width as nat,
                        |c: int|
                            if c < index {
                                line_solution(clues[c], column_of(g1, c))[r]
                            } else {
                                g1[r][c]
                            },
                    ),
            ));
        }
        while index < self.width
            invariant
                self.wf(),
                self.width == old(self).width,
                self.height == old(self).height,
                self.infos == old(self).infos,
                g1 == old(self)@,
                clues == self.infos.column_clues(),
                index <= self.width,
                forall|c: int| 0 <= c < index ==> feasible(#[trigger] clues[c], column_of(g1, c)),
                grid_refines(g1, self@),
                self@ == Seq::new(
                    self.height as nat,
                    |r: int|
                        Seq::new(
                            self.width as nat,
                            |c: int|
                                if c < index {
                                    line_solution(clues[c], column_of(g1, c))[r]
                                } else {
                                    g1[r][c]
                                },
                        ),
                ),
            decreases self.width - index,
        {
            let mut column = self.get_column(index);
            proof {
                assert(column@ =~= column_of(g1, index as int));
            }
            match column.try_fit(&self.infos.columns[index]) {
                Ok(solved) => {
                    let ghost before = self@;
                    self.set_column(index, solved);
                    proof {
                        lemma_solution_refines(clues[index as int], column@);
                        assert forall|r: int| 0 <= r < g1.len() implies refines(
                            #[trigger] g1[r],
                            self@[r],
                        ) by {
                            assert(refines(g1[r], before[r]));
                            assert forall|p: int|
                                0 <= p < g1[r].len() && #[trigger] g1[r][p] is Some implies self@[r][p]
                                == g1[r][p] by {
                                if p == index {
                                    assert(column@[r] is Some);
                                }
                            }
                        }
                        let e = Seq::new(
                            self.height as nat,
                            |r: int|
                                Seq::new(
                                    self.width as nat,
                                    |c: int|
                                        if c < index + 1 {
                                            line_solution(clues[c], column_of(g1, c))[r]
                                        } else {
                                            g1[r][c]
                                        },
                                ),
                        );
                        assert forall|r: int| 0 <= r < self.height implies self@[r] =~= e[r] by {}
                        assert(self@ =~= e);
                    }
                },
                Err(e) => {
                    proof {
                        assert(!feasible(clues[index as int], column_of(g1, index as int)));
                    }
                    return Err(e);
                },
            }
            index += 1;
        }
        proof {
            let e = columns_solved(g1, self.width as nat, clues);
            assert forall|r: int| 0 <= r < self.height implies self@[r] =~= e[r] by {}
            assert(self@ =~= e);
        }
        Ok(())
    }

    /// Runs passes until one determines no further cell, and leaves the
    /// board as that pass left it. Fails where a line of some pass has no
    /// solution.
    pub fn try_paint(&mut self) -> (res: Result<(), Infeasible>)
        requires
            old(self).wf(),
        ensures
            final(self).wf(),
            final(self).width == old(self).width,
            final(self).height == old(self).height,
            final(self).infos == old(self).infos,
            res is Ok ==> exists|m: nat|
                m >= 1 && #[trigger] passes(
                    old(self)@,
                    old(self).width as nat,
                    old(self).infos.row_clues(),
                    old(self).infos.column_clues(),
                    m,
                ) == Some(final(self)@),
            res is Ok ==> pass(
                final(self)@,
                old(self).width as nat,
                old(self).infos.row_clues(),
                old(self).infos.column_clues(),
            ) == Some(final(self)@),
            grid_refines(old(self)@, final(self)@),
            res is Ok <==> forall|m: nat|
                #[trigger] passes(
                    old(self)@,
                    old(self).width as nat,
                    old(self).infos.row_clues(),
                    old(self).infos.column_clues(),
                    m,
                ) is Some,
            res is Err ==> exists|m: nat|
                #[trigger] passes(
                    old(self)@,
                    old(self).width as nat,
                    old(self).infos.row_clues(),
                    old(self).infos.column_clues(),
                    m,
                ) is None,
            pass(
                old(self)@,
                old(self).width as nat,
                old(self).infos.row_clues(),
                old(self).infos.column_clues(),
            ) == Some(old(self)@) ==> res is Ok && final(self)@ == old(self)@,
            forall|truth: Seq<Seq<bool>>|
                derived_from(
                    truth,
                    old(self)@,
                    old(self).width as nat,
                    old(self).infos.row_clues(),
                    old(self).infos.column_clues(),
                ) ==> res is Ok && #[trigger] grid_agrees(truth, final(self)@),
    {
        let ghost start = self@;
        let ghost width = self.width as nat;
        let ghost rows = self.infos.row_clues();
        let ghost columns = self.infos.column_clues();
        let ghost mut m: nat = 0;
        let mut prev: usize = 0;
        proof {
            lemma_refines_self(start);
        }
        loop
            invariant
                self.wf(),
                self.width == old(self).width,
                self.height == old(self).height,
                self.infos == old(self).infos,
                start == old(self)@,
                width == self.width as nat,
                rows == self.infos.row_clues(),
                columns == self.infos.column_clues(),
                passes(start, width, rows, columns, m) == Some(self@),
                grid_refines(start, self@),
                prev <= grid_count(self@),
                prev <= self.width * self.height,
            decreases self.width * self.height - prev,
        {
            let ghost g0 = self@;
            proof {
                if pass(start, width, rows, columns) == Some(start) {
                    lemma_passes_fixed(start, width, rows, columns, m);
                    lemma_passes_fixed(start, width, rows, columns, m + 1);
                }
                assert(passes(start, width, rows, columns, m + 1) == pass(
                    g0,
                    width,
                    rows,
                    columns,
                ));
            }
            match self.solve_rows() {
                Ok(()) => {},
                Err(e) => {
                    proof {
                        lemma_sound_outcome(start, width, rows, columns, m + 1);
                        lemma_refines_chain(start, g0, self@);
                    }
                    return Err(e);
                },
            }
            let ghost g1 = self@;
            match self.solve_columns() {
                Ok(()) => {},
                Err(e) => {
                    proof {
                        lemma_sound_outcome(start, width, rows, columns, m + 1);
                        lemma_refines_chain(g0, g1, self@);
                        lemma_refines_chain(start, g0, self@);
                    }
                    return Err(e);
                },
            }
            proof {
                m = m + 1;
                assert(pass(g0, width, rows, columns) == Some(self@));
                lemma_pass_refines(g0, width, rows, columns);
                lemma_refines_chain(start, g0, self@);
            }
            let now = self.painted_count();
            if now == prev {
                proof {
                    lemma_grid_count_refines(g0, self@);
                    assert(g0 == self@);
                    lemma_sound_outcome(start, width, rows, columns, m);
                    assert forall|k: nat| #[trigger]
                        passes(start, width, rows, columns, k) is Some by {
                        lemma_passes_settled(start, width, rows, columns, m, k);
                    }
                }
                return Ok(());
            }
            prev = now;
        }
    }

    /// Whether every known cell of this board has the value that the cell of
    /// `painted_board` at its place in the storage has.
    pub fn verify(self, painted_board: PaintedBoard) -> (r: bool)
        ensures
            r == (forall|k: int|
                0 <= k < self.cells@.len() && k < painted_board.cells@.len() ==> (
                #[trigger] self.cells@[k] is Some ==> self.cells@[k] == Some(
                    painted_board.cells@[k],
                ))),
    {
        let n = if self.cells.len() < painted_board.cells.len() {
            self.cells.len()
        } else {
            painted_board.cells.len()
        };
        let mut k: usize = 0;
        while k < n
            invariant
                k <= n,
                n <= self.cells@.len(),
                n <= painted_board.cells@.len(),
                n == self.cells@.len() || n == painted_board.cells@.len(),
                forall|i: int|
                    0 <= i < k ==> (#[trigger] self.cells@[i] is Some ==> self.cells@[i] == Some(
                        painted_board.cells@[i],
                    )),
            decreases n - k,
        {
            match self.cells[k] {
                Some(v) => {
                    if v != painted_board.cells[k] {
                        return false;
                    }
                },
                None => {},
            }
            k += 1;
        }
        true
    }
}

/// A grid holds every known cell of itself.
pub proof fn lemma_refines_self(a: Seq<Seq<Option<bool>>>)
    ensures
        grid_refines(a, a),
{
    assert forall|r: int| 0 <= r < a.len() implies refines(#[trigger] a[r], a[r]) by {}
}

/// Keeping every known cell carries over two steps.
pub proof fn lemma_refines_chain(
    a: Seq<Seq<Option<bool>>>,
    b: Seq<Seq<Option<bool>>>,
    c: Seq<Seq<Option<bool>>>,
)
    requires
        grid_refines(a, b),
        grid_refines(b, c),
    ensures
        grid_refines(a, c),
{
    assert forall|r: int| 0 <= r < a.len() implies refines(#[trigger] a[r], c[r]) by {
        assert(refines(a[r], b[r]));
        assert(refines(b[r], c[r]));
        assert forall|p: int| 0 <= p < a[r].len() && #[trigger] a[r][p] is Some implies c[r][p]
            == a[r][p] by {
            assert(b[r][p] is Some);
        }
    }
}

/// The first rows of a grid hold no more known cells than all of it.
pub proof fn lemma_tail_count(grid: Seq<Seq<Option<bool>>>, n: int)
    requires
        0 <= n <= grid.len(),
    ensures
        grid_count(grid.take(n)) <= grid_count(grid),
    decreases grid.len() - n,
{
    if n < grid.len() {
        lemma_tail_count(grid, n + 1);
        assert(grid.take(n + 1).drop_last() =~= grid.take(n));
    } else {
        assert(grid.take(n) =~= grid);
    }
}

/// The first cells of a line hold no more known cells than all of it.
pub proof fn lemma_prefix_count(line: Seq<Option<bool>>, n: int)
    requires
        0 <= n <= line.len(),
    ensures
        known_count(line.take(n)) <= known_count(line),
    decreases line.len() - n,
{
    if n < line.len() {
        lemma_prefix_count(line, n + 1);
        assert(line.take(n + 1).drop_last() =~= line.take(n));
    } else {
        assert(line.take(n) =~= line);
    }
}

/// Each row of `grid` holds no cell against the row of `truth`.
pub open spec fn grid_agrees(truth: Seq<Seq<bool>>, grid: Seq<Seq<Option<bool>>>) -> bool {
    &&& truth.len() == grid.len()
    &&& forall|r: int| 0 <= r < truth.len() ==> agrees(#[trigger] truth[r], grid[r])
}

/// A pass is sound: on a grid whose known cells are cells of a fully known
/// grid, with that grid's clues, every line has a solution, and every cell
/// that the pass determines has the value of the fully known grid.
pub proof fn lemma_pass_sound(truth: Seq<Seq<bool>>, grid: Seq<Seq<Option<bool>>>, width: nat)
    requires
        shaped(truth, width, truth.len()),
        grid_agrees(truth, grid),
    ensures
        pass(grid, width, row_clues_of(truth), column_clues_of(truth, width)) is Some,
        grid_agrees(
            truth,
            pass(grid, width, row_clues_of(truth), column_clues_of(truth, width)).unwrap(),
        ),
{
    let rows = row_clues_of(truth);
    let columns = column_clues_of(truth, width);
    let g1 = rows_solved(grid, rows);
    assert forall|r: int| 0 <= r < grid.len() implies feasible(#[trigger] rows[r], grid[r])
        && agrees(truth[r], g1[r]) by {
        assert(agrees(truth[r], grid[r]));
        lemma_solution_sound(truth[r], grid[r]);
    }
    assert forall|c: int| 0 <= c < width implies feasible(
        #[trigger] columns[c],
        column_of(g1, c),
    ) && agrees(column_of(truth, c), line_solution(columns[c], column_of(g1, c))) by {
        let t = column_of(truth, c);
        let f = column_of(g1, c);
        assert forall|p: int| 0 <= p < t.len() && #[trigger] f[p] is Some implies f[p] == Some(
            t[p],
        ) by {
            assert(agrees(truth[p], g1[p]));
            assert(truth[p].len() == width);
            assert(g1[p][c] is Some ==> g1[p][c] == Some(truth[p][c]));
        }
        lemma_solution_sound(t, f);
    }
    let g2 = columns_solved(g1, width, columns);
    assert forall|r: int| 0 <= r < truth.len() implies agrees(#[trigger] truth[r], g2[r]) by {
        assert(truth[r].len() == width);
        assert forall|p: int| 0 <= p < width && #[trigger] g2[r][p] is Some implies g2[r][p]
            == Some(truth[r][p]) by {
            let s = line_solution(columns[p], column_of(g1, p));
            assert(agrees(column_of(truth, p), s));
            assert(s[r] is Some ==> s[r] == Some(column_of(truth, p)[r]));
        }
    }
}

/// Propagation is sound: any number of passes on a grid whose known cells
/// are cells of a fully known grid, with that grid's clues, finds a solution
/// for every line and determines no cell against the fully known grid.
pub proof fn lemma_passes_sound(
    truth: Seq<Seq<bool>>,
    grid: Seq<Seq<Option<bool>>>,
    width: nat,
    m: nat,
)
    requires
        shaped(truth, width, truth.len()),
        grid_agrees(truth, grid),
    ensures
        passes(grid, width, row_clues_of(truth), column_clues_of(truth, width), m) is Some,
        grid_agrees(
            truth,
            passes(grid, width, row_clues_of(truth), column_clues_of(truth, width), m).unwrap(),
        ),
    decreases m,
{
    if m > 0 {
        lemma_passes_sound(truth, grid, width, (m - 1) as nat);
        let g = passes(
            grid,
            width,
            row_clues_of(truth),
            column_clues_of(truth, width),
            (m - 1) as nat,
        ).unwrap();
        lemma_pass_sound(truth, g, width);
    }
}

/// The number of known cells never falls from one pass to the next, and no
/// known cell changes.
pub proof fn lemma_passes_monotone(
    grid: Seq<Seq<Option<bool>>>,
    width: nat,
    rows: Seq<Seq<nat>>,
    columns: Seq<Seq<nat>>,
    m: nat,
)
    requires
        shaped(grid, width, grid.len()),
        passes(grid, width, rows, columns, m + 1) is Some,
    ensures
        passes(grid, width, rows, columns, m) is Some,
        shaped(passes(grid, width, rows, columns, m + 1).unwrap(), width, grid.len()),
        grid_refines(
            passes(grid, width, rows, columns, m).unwrap(),
            passes(grid, width, rows, columns, m + 1).unwrap(),
        ),
        grid_count(passes(grid, width, rows, columns, m).unwrap()) <= grid_count(
            passes(grid, width, rows, columns, m + 1).unwrap(),
        ),
    decreases m,
{
    assert(passes(grid, width, rows, columns, m) is Some);
    let g = passes(grid, width, rows, columns, m).unwrap();
    if m > 0 {
        lemma_passes_monotone(grid, width, rows, columns, (m - 1) as nat);
    }
    assert(shaped(g, width, grid.len()));
    lemma_pass_refines(g, width, rows, columns);
}

/// On a grid that a pass leaves as it is, every line holds all the cells
/// that its clue forces: no line alone determines a further cell.
pub proof fn lemma_converged_lines(
    grid: Seq<Seq<Option<bool>>>,
    width: nat,
    rows: Seq<Seq<nat>>,
    columns: Seq<Seq<nat>>,
)
    requires
        shaped(grid, width, grid.len()),
        pass(grid, width, rows, columns) == Some(grid),
    ensures
        forall|r: int| 0 <= r < grid.len() ==> #[trigger] line_solution(rows[r], grid[r]) == grid[r],
        forall|c: int|
            0 <= c < width ==> #[trigger] line_solution(columns[c], column_of(grid, c))
                == column_of(grid, c),
{
    let g1 = rows_solved(grid, rows);
    let g2 = columns_solved(g1, width, columns);
    assert forall|r: int| 0 <= r < grid.len() implies g1[r] == grid[r] by {
        assert(feasible(rows[r], grid[r]));
        lemma_solution_refines(rows[r], grid[r]);
        assert forall|p: int| 0 <= p < width implies g1[r][p] == grid[r][p] by {
            assert(grid[r].len() == width);
            if g1[r][p] is Some {
                assert(feasible(columns[p], column_of(g1, p)));
                lemma_solution_refines(columns[p], column_of(g1, p));
                assert(column_of(g1, p)[r] is Some);
                assert(g2[r][p] == g1[r][p]);
            } else {
                assert(grid[r][p] is Some ==> g1[r][p] == grid[r][p]);
            }
        }
        assert(g1[r] =~= grid[r]);
    }
    assert(g1 =~= grid);
    assert forall|c: int| 0 <= c < width implies #[trigger] line_solution(
        columns[c],
        column_of(grid, c),
    ) == column_of(grid, c) by {
        assert(feasible(columns[c], column_of(g1, c)));
        assert(line_solution(columns[c], column_of(grid, c)) =~= column_of(g2, c));
    }
}

/// The known cells of `grid` are cells of the fully known grid `truth` of
/// width `width`, and the clues are those of `truth`.
pub open spec fn derived_from(
    truth: Seq<Seq<bool>>,
    grid: Seq<Seq<Option<bool>>>,
    width: nat,
    rows: Seq<Seq<nat>>,
    columns: Seq<Seq<nat>>,
) -> bool {
    &&& shaped(truth, width, truth.len())
    &&& grid_agrees(truth, grid)
    &&& rows == row_clues_of(truth)
    &&& columns == column_clues_of(truth, width)
}

/// Whatever fully known grid a board was derived from, `m` passes on it
/// have a result, and that result holds no cell against the grid.
pub proof fn lemma_sound_outcome(
    grid: Seq<Seq<Option<bool>>>,
    width: nat,
    rows: Seq<Seq<nat>>,
    columns: Seq<Seq<nat>>,
    m: nat,
)
    ensures
        forall|truth: Seq<Seq<bool>>| #[trigger]
            derived_from(truth, grid, width, rows, columns) ==> passes(
                grid,
                width,
                rows,
                columns,
                m,
            ) is Some && grid_agrees(truth, passes(grid, width, rows, columns, m).unwrap()),
{
    assert forall|truth: Seq<Seq<bool>>| #[trigger]
        derived_from(truth, grid, width, rows, columns) implies passes(
        grid,
        width,
        rows,
        columns,
        m,
    ) is Some && grid_agrees(truth, passes(grid, width, rows, columns, m).unwrap()) by {
        lemma_passes_sound(truth, grid, width, m);
    }
}

} // verus!
