//! Boards: a grid of cells stored row by row, read and written by rows and
//! by columns.

use vstd::prelude::*;
use crate::clue::{clue_of, ColumnInfo, PaintedColumn};
use crate::line::Column;

verus! {

/// The cell in row `r` and column `c` of a grid of width `width` that is
/// stored row by row.
pub open spec fn at<T>(cells: Seq<T>, width: int, r: int, c: int) -> T {
    cells[r * width + c]
}

/// The rows of a grid that is stored row by row.
pub open spec fn grid_of<T>(cells: Seq<T>, width: nat, height: nat) -> Seq<Seq<T>> {
    Seq::new(height, |r: int| Seq::new(width, |c: int| at(cells, width as int, r, c)))
}

/// Column `c` of a grid that is given by its rows.
pub open spec fn column_of<T>(grid: Seq<Seq<T>>, c: int) -> Seq<T> {
    Seq::new(grid.len(), |r: int| grid[r][c])
}

/// `grid` has `height` rows of `width` cells.
pub open spec fn shaped<T>(grid: Seq<Seq<T>>, width: nat, height: nat) -> bool {
    &&& grid.len() == height
    &&& forall|r: int| 0 <= r < height ==> (#[trigger] grid[r]).len() == width
}

/// The clues of the rows of a fully known grid.
pub open spec fn row_clues_of(grid: Seq<Seq<bool>>) -> Seq<Seq<nat>> {
    Seq::new(grid.len(), |r: int| clue_of(grid[r]))
}

/// The clues of the columns of a fully known grid of width `width`.
pub open spec fn column_clues_of(grid: Seq<Seq<bool>>, width: nat) -> Seq<Seq<nat>> {
    Seq::new(width, |c: int| clue_of(column_of(grid, c)))
}

/// A cell's position in the storage lies inside it.
pub proof fn lemma_index_inside(width: int, height: int, r: int, c: int)
    requires
        0 <= r < height,
        0 <= c < width,
    ensures
        0 <= r * width <= r * width + c < width * height,
        (r + 1) * width <= width * height,
        (r + 1) * width == r * width + width,
{
    assert(0 <= r * width && (r + 1) * width <= width * height && (r + 1) * width == r * width
        + width) by (nonlinear_arith)
        requires
            0 <= r < height,
            0 < width,
    ;
}

/// Two cells with one position in the storage are one cell.
pub proof fn lemma_index_unique(width: int, r: int, c: int, s: int, d: int)
    requires
        0 <= c < width,
        0 <= d < width,
        0 <= r,
        0 <= s,
        r * width + c == s * width + d,
    ensures
        r == s,
        c == d,
{
    assert(r == s) by (nonlinear_arith)
        requires
            0 <= c < width,
            0 <= d < width,
            r * width + c == s * width + d,
    ;
}

/// A fully known grid: the cells of its rows, one row after the other.
#[derive(Clone, Debug)]
pub struct PaintedBoard {
    pub width: usize,
    pub height: usize,
    pub cells: Vec<bool>,
}

/// The clues of a board: one for each column and one for each row.
#[derive(Clone, Debug)]
pub struct ColumnInfos {
    pub columns: Vec<ColumnInfo>,
    pub rows: Vec<ColumnInfo>,
}

/// A partly known grid with the clues of its lines.
#[derive(Clone, Debug)]
pub struct Board {
    pub width: usize,
    pub height: usize,
    pub cells: Vec<Option<bool>>,
    pub infos: ColumnInfos,
}

impl ColumnInfos {
    pub fn new(columns: Vec<ColumnInfo>, rows: Vec<ColumnInfo>) -> (res: ColumnInfos)
        ensures
            res.columns == columns,
            res.rows == rows,
    {
        ColumnInfos { columns, rows }
    }

    /// The clues of the rows, top to bottom.
    pub open spec fn row_clues(&self) -> Seq<Seq<nat>> {
        Seq::new(self.rows@.len(), |j: int| self.rows@[j]@)
    }

    /// The clues of the columns, left to right.
    pub open spec fn column_clues(&self) -> Seq<Seq<nat>> {
        Seq::new(self.columns@.len(), |i: int| self.columns@[i]@)
    }
}

impl View for PaintedBoard {
    type V = Seq<Seq<bool>>;

    open spec fn view(&self) -> Seq<Seq<bool>> {
        grid_of(self.cells@, self.width as nat, self.height as nat)
    }
}

impl View for Board {
    type V = Seq<Seq<Option<bool>>>;

    open spec fn view(&self) -> Seq<Seq<Option<bool>>> {
        grid_of(self.cells@, self.width as nat, self.height as nat)
    }
}

impl PaintedBoard {
    /// The storage holds one cell for each position of the grid.
    pub open spec fn wf(&self) -> bool {
        &&& self.cells@.len() == self.width * self.height
        &&& self.width * self.height <= usize::MAX
    }

    /// The grid of `height` rows of `width` cells that `cells` holds row by
    /// row, where it holds that many cells.
    pub fn new(width: usize, height: usize, cells: Vec<bool>) -> (res: Option<PaintedBoard>)
        ensures
            res is Some <==> cells@.len() == width * height,
            res matches Some(b) ==> b.wf() && b.width == width && b.height == height && b.cells
                == cells,
    {
        let given = cells.len();
        match width.checked_mul(height) {
            Some(total) => {
                if total == given {
                    Some(PaintedBoard { width, height, cells })
                } else {
                    None
                }
            },
            None => None,
        }
    }

    /// Row `j`.
    pub fn get_row(&self, j: usize) -> (res: PaintedColumn)
        requires
            self.wf(),
            j < self.height,
        ensures
            res@ == self@[j as int],
    {
        let mut cells: Vec<bool> = Vec::new();
        let mut i: usize = 0;
        while i < self.width
            invariant
                self.wf(),
                j < self.height,
                i <= self.width,
                cells@ == self@[j as int].take(i as int),
            decreases self.width - i,
        {
            proof {
                lemma_index_inside(self.width as int, self.height as int, j as int, i as int);
            }
            cells.push(self.cells[j * self.width + i]);
            proof {
                assert(cells@ =~= self@[j as int].take(i + 1));
            }
            i += 1;
        }
        proof {
            assert(self@[j as int].take(self.width as int) =~= self@[j as int]);
        }
        PaintedColumn { cells }
    }

    /// Column `i`.
    pub fn get_column(&self, i: usize) -> (res: PaintedColumn)
        requires
            self.wf(),
            i < self.width,
        ensures
            res@ == column_of(self@, i as int),
    {
        let mut cells: Vec<bool> = Vec::new();
        let mut j: usize = 0;
        while j < self.height
            invariant
                self.wf(),
                i < self.width,
                j <= self.height,
                cells@ == column_of(self@, i as int).take(j as int),
            decreases self.height - j,
        {
            proof {
                lemma_index_inside(self.width as int, self.height as int, j as int, i as int);
            }
            cells.push(self.cells[j * self.width + i]);
            proof {
                assert(cells@ =~= column_of(self@, i as int).take(j + 1));
            }
            j += 1;
        }
        proof {
            assert(column_of(self@, i as int).take(self.height as int) =~= column_of(
                self@,
                i as int,
            ));
        }
        PaintedColumn { cells }
    }

    /// The clues of all columns and of all rows.
    pub fn get_column_infos(&self) -> (res: ColumnInfos)
        requires
            self.wf(),
        ensures
            res.columns@.len() == self.width,
            res.rows@.len() == self.height,
            res.row_clues() == row_clues_of(self@),
            res.column_clues() == column_clues_of(self@, self.width as nat),
    {
        let mut columns: Vec<ColumnInfo> = Vec::new();
        let mut i: usize = 0;
        while i < self.width
            invariant
                self.wf(),
                i <= self.width,
                columns@.len() == i,
                forall|c: int| 0 <= c < i ==> (#[trigger] columns@[c])@ == clue_of(column_of(self@, c)),
            decreases self.width - i,
        {
            columns.push(self.get_column(i).get_info());
            i += 1;
        }
        let mut rows: Vec<ColumnInfo> = Vec::new();
        let mut j: usize = 0;
        while j < self.height
            invariant
                self.wf(),
                j <= self.height,
                rows@.len() == j,
                forall|r: int| 0 <= r < j ==> (#[trigger] rows@[r])@ == clue_of(self@[r]),
            decreases self.height - j,
        {
            rows.push(self.get_row(j).get_info());
            j += 1;
        }
        let res = ColumnInfos::new(columns, rows);
        proof {
            assert(res.row_clues() =~= row_clues_of(self@));
            assert(res.column_clues() =~= column_clues_of(self@, self.width as nat));
        }
        res
    }

    /// A board of this grid's size and clues on which no cell is known.
    pub fn into_empty_board(&self) -> (res: Board)
        requires
            self.wf(),
        ensures
            res.wf(),
            res.width == self.width,
            res.height == self.height,
            res.infos.row_clues() == row_clues_of(self@),
            res.infos.column_clues() == column_clues_of(self@, self.width as nat),
            forall|r: int, c: int|
                0 <= r < self.height && 0 <= c < self.width ==> (#[trigger] res@[r][c]) is None,
    {
        let blank = Column::full(self.cells.len(), None);
        let res = Board {
            width: self.width,
            height: self.height,
            cells: blank.cells,
            infos: self.get_column_infos(),
        };
        proof {
            assert forall|r: int, c: int|
                0 <= r < self.height && 0 <= c < self.width implies (#[trigger] res@[r][c]) is None by {
                lemma_index_inside(self.width as int, self.height as int, r, c);
            }
        }
        res
    }
}

impl Board {
    /// The storage holds one cell for each position of the grid, and there
    /// is one clue for each column and for each row.
    pub open spec fn wf(&self) -> bool {
        &&& self.cells@.len() == self.width * self.height
        &&& self.width * self.height <= usize::MAX
        &&& self.infos.columns@.len() == self.width
        &&& self.infos.rows@.len() == self.height
    }

    /// The board of `height` rows of `width` cells that `cells` holds row by
    /// row, with the clues `infos`, where there is a cell for each position
    /// and a clue for each line.
    pub fn new(width: usize, height: usize, cells: Vec<Option<bool>>, infos: ColumnInfos) -> (res:
        Option<Board>)
        ensures
            res is Some <==> cells@.len() == width * height && infos.columns@.len() == width
                && infos.rows@.len() == height,
            res matches Some(b) ==> b.wf() && b.width == width && b.height == height && b.cells
                == cells && b.infos == infos,
    {
        let given = cells.len();
        match width.checked_mul(height) {
            Some(total) => {
                if total == given && infos.columns.len() == width && infos.rows.len() == height {
                    Some(Board { width, height, cells, infos })
                } else {
                    None
                }
            },
            None => None,
        }
    }

    /// A board for the clues `infos` on which no cell is known, where the
    /// number of its cells is one that a machine can count up to.
    pub fn from_infos(infos: ColumnInfos) -> (res: Option<Board>)
        ensures
            res is Some <==> infos.columns@.len() * infos.rows@.len() <= usize::MAX,
            res matches Some(b) ==> b.wf() && b.infos == infos && b.width == infos.columns@.len()
                && b.height == infos.rows@.len() && forall|r: int, c: int|
                0 <= r < b.height && 0 <= c < b.width ==> (#[trigger] b@[r][c]) is None,
    {
        let width = infos.columns.len();
        let height = infos.rows.len();
        match width.checked_mul(height) {
            Some(total) => {
                let blank = Column::full(total, None);
                let b = Board { width, height, cells: blank.cells, infos };
                proof {
                    assert forall|r: int, c: int|
                        0 <= r < b.height && 0 <= c < b.width implies (#[trigger] b@[r][c]) is None by {
                        lemma_index_inside(width as int, height as int, r, c);
                    }
                }
                Some(b)
            },
            None => None,
        }
    }

    /// Row `j`.
    pub fn get_row(&self, j: usize) -> (res: Column)
        requires
            self.wf(),
            j < self.height,
        ensures
            res@ == self@[j as int],
    {
        let mut cells: Vec<Option<bool>> = Vec::new();
        let mut i: usize = 0;
        while i < self.width
            invariant
                self.wf(),
                j < self.height,
                i <= self.width,
                cells@ == self@[j as int].take(i as int),
            decreases self.width - i,
        {
            proof {
                lemma_index_inside(self.width as int, self.height as int, j as int, i as int);
            }
            cells.push(self.cells[j * self.width + i]);
            proof {
                assert(cells@ =~= self@[j as int].take(i + 1));
            }
            i += 1;
        }
        proof {
            assert(self@[j as int].take(self.width as int) =~= self@[j as int]);
        }
        Column { cells }
    }

    /// Column `i`.
    pub fn get_column(&self, i: usize) -> (res: Column)
        requires
            self.wf(),
            i < self.width,
        ensures
            res@ == column_of(self@, i as int),
    {
        let mut cells: Vec<Option<bool>> = Vec::new();
        let mut j: usize = 0;
        while j < self.height
            invariant
                self.wf(),
                i < self.width,
                j <= self.height,
                cells@ == column_of(self@, i as int).take(j as int),
            decreases self.height - j,
        {
            proof {
                lemma_index_inside(self.width as int, self.height as int, j as int, i as int);
            }
            cells.push(self.cells[j * self.width + i]);
            proof {
                assert(cells@ =~= column_of(self@, i as int).take(j + 1));
            }
            j += 1;
        }
        proof {
            assert(column_of(self@, i as int).take(self.height as int) =~= column_of(
                self@,
                i as int,
            ));
        }
        Column { cells }
    }

    /// Writes `row` over row `j`.
    pub fn set_row(&mut self, j: usize, row: Column)
        requires
            old(self).wf(),
            j < old(self).height,
            row@.len() == old(self).width,
        ensures
            final(self).wf(),
            final(self).width == old(self).width,
            final(self).height == old(self).height,
            final(self).infos == old(self).infos,
            final(self)@ == old(self)@.update(j as int, row@),
    {
        let ghost before = self.cells@;
        let w = self.width;
        let mut index: usize = 0;
        while index < w
            invariant
                index <= w,
                w == self.width,
                self.wf(),
                j < self.height,
                row@.len() == w,
                before.len() == self.cells@.len(),
                self.width == old(self).width,
                self.height == old(self).height,
                self.infos == old(self).infos,
                forall|k: int|
                    0 <= k < before.len() ==> #[trigger] self.cells@[k] == (if j * w <= k < j * w
                        + index {
                        row@[k - j * w]
                    } else {
                        before[k]
                    }),
            decreases w - index,
        {
            proof {
                lemma_index_inside(w as int, self.height as int, j as int, index as int);
            }
            self.cells.set(index + j * w, row.cells[index]);
            index += 1;
        }
        proof {
            let g = self@;
            let e = old(self)@.update(j as int, row@);
            assert forall|r: int| 0 <= r < self.height implies g[r] =~= e[r] by {
                assert forall|c: int| 0 <= c < w implies g[r][c] == e[r][c] by {
                    lemma_index_inside(w as int, self.height as int, r, c);
                    let k = r * w + c;
                    if j * w <= k < j * w + w {
                        lemma_index_unique(w as int, r, c, j as int, k - j * w);
                    }
                }
            }
            assert(g =~= e);
        }
    }

    /// Writes `column` over column `i`.
    pub fn set_column(&mut self, i: usize, column: Column)
        requires
            old(self).wf(),
            i < old(self).width,
            column@.len() == old(self).height,
        ensures
            final(self).wf(),
            final(self).width == old(self).width,
            final(self).height == old(self).height,
            final(self).infos == old(self).infos,
            final(self)@ == Seq::new(
                old(self).height as nat,
                |r: int| old(self)@[r].update(i as int, column@[r]),
            ),
    {
        let ghost before = self.cells@;
        let w = self.width;
        let h = self.height;
        let mut index: usize = 0;
        while index < h
            invariant
                index <= h,
                w == self.width,
                h == self.height,
                self.wf(),
                i < w,
                column@.len() == h,
                before.len() == self.cells@.len(),
                self.width == old(self).width,
                self.height == old(self).height,
                self.infos == old(self).infos,
                forall|r: int, c: int|
                    0 <= r < h && 0 <= c < w ==> #[trigger] at(self.cells@, w as int, r, c) == (if c
                        == i && r < index {
                        column@[r]
                    } else {
                        at(before, w as int, r, c)
                    }),
            decreases h - index,
        {
            proof {
                lemma_index_inside(w as int, h as int, index as int, i as int);
            }
            let ghost mid = self.cells@;
            self.cells.set(i + index * w, column.cells[index]);
            proof {
                assert forall|r: int, c: int| 0 <= r < h && 0 <= c < w implies #[trigger] at(
                    self.cells@,
                    w as int,
                    r,
                    c,
                ) == (if c == i && r < index + 1 {
                    column@[r]
                } else {
                    at(before, w as int, r, c)
                }) by {
                    lemma_index_inside(w as int, h as int, r, c);
                    assert(at(mid, w as int, r, c) == (if c == i && r < index {
                        column@[r]
                    } else {
                        at(before, w as int, r, c)
                    }));
                    if r * w + c == index * w + i {
                        lemma_index_unique(w as int, r, c, index as int, i as int);
                    }
                }
            }
            index += 1;
        }
        proof {
            let g = self@;
            let e = Seq::new(h as nat, |r: int| old(self)@[r].update(i as int, column@[r]));
            assert forall|r: int| 0 <= r < h implies g[r] =~= e[r] by {
                assert forall|c: int| 0 <= c < w implies g[r][c] == e[r][c] by {
                    assert(g[r][c] == at(self.cells@, w as int, r, c));
                }
            }
            assert(g =~= e);
        }
    }
}

} // verus!
