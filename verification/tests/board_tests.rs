use nonogram::board::{Board, ColumnInfos, PaintedBoard};
use nonogram::clue::ColumnInfo;
use nonogram::line::{Column, Infeasible};

const F: Option<bool> = Some(true);
const E: Option<bool> = Some(false);
const U: Option<bool> = None;

fn painted(width: usize, height: usize, rows: &[&[u8]]) -> PaintedBoard {
    let cells: Vec<bool> = rows.iter().flat_map(|r| r.iter().map(|&v| v == 1)).collect();
    PaintedBoard::new(width, height, cells).unwrap()
}

fn clues(infos: &[ColumnInfo]) -> Vec<Vec<usize>> {
    infos.iter().map(|c| c.info.clone()).collect()
}

#[test]
fn one_cell_board_is_solved_in_one_pass() {
    let truth = painted(1, 1, &[&[1]]);
    let infos = truth.get_column_infos();
    assert_eq!(clues(&infos.rows), vec![vec![1]]);
    assert_eq!(clues(&infos.columns), vec![vec![1]]);
    let mut board = truth.into_empty_board();
    assert_eq!(board.cells, vec![U]);
    assert_eq!(board.try_paint(), Ok(()));
    assert_eq!(board.cells, vec![F]);
    assert_eq!(board.painted_count(), 1);
    assert!(board.verify(truth));
}

#[test]
fn painted_board_needs_all_its_cells() {
    assert!(PaintedBoard::new(2, 2, vec![true; 3]).is_none());
    assert!(PaintedBoard::new(usize::MAX, 2, vec![]).is_none());
    assert!(PaintedBoard::new(0, 5, vec![]).is_some());
}

#[test]
fn rows_and_columns_of_a_painted_board() {
    let truth = painted(3, 2, &[&[1, 0, 1], &[0, 1, 1]]);
    assert_eq!(truth.get_row(0).cells, vec![true, false, true]);
    assert_eq!(truth.get_row(1).cells, vec![false, true, true]);
    assert_eq!(truth.get_column(0).cells, vec![true, false]);
    assert_eq!(truth.get_column(2).cells, vec![true, true]);
    let infos = truth.get_column_infos();
    assert_eq!(clues(&infos.rows), vec![vec![1, 1], vec![2]]);
    assert_eq!(clues(&infos.columns), vec![vec![1], vec![1], vec![2]]);
}

#[test]
fn rows_and_columns_are_written_in_place() {
    let truth = painted(3, 2, &[&[1, 0, 1], &[0, 1, 1]]);
    let mut board = truth.into_empty_board();
    board.set_row(1, Column::new(vec![E, F, F]));
    assert_eq!(board.cells, vec![U, U, U, E, F, F]);
    board.set_column(0, Column::new(vec![F, U]));
    assert_eq!(board.cells, vec![F, U, U, U, F, F]);
    assert_eq!(board.get_row(0).cells, vec![F, U, U]);
    assert_eq!(board.get_column(1).cells, vec![U, F]);
    assert_eq!(board.get_column(2).cells, vec![U, F]);
    assert_eq!(board.painted_count(), 3);
}

#[test]
fn column_of_a_tall_board_is_written_over_its_height() {
    let truth = painted(2, 3, &[&[1, 0], &[0, 1], &[1, 1]]);
    let mut board = truth.into_empty_board();
    board.set_column(1, Column::new(vec![E, F, F]));
    assert_eq!(board.cells, vec![U, E, U, F, U, F]);
}

#[test]
fn board_that_logic_solves() {
    let truth = painted(
        5,
        5,
        &[&[1, 1, 1, 1, 1], &[1, 0, 0, 0, 1], &[1, 0, 1, 0, 1], &[1, 0, 0, 0, 1], &[1, 1, 1, 1, 1]],
    );
    let mut board = truth.into_empty_board();
    assert_eq!(board.try_paint(), Ok(()));
    assert_eq!(board.painted_count(), 25);
    let expected: Vec<Option<bool>> = truth.cells.iter().map(|&v| Some(v)).collect();
    assert_eq!(board.cells, expected);
    assert!(board.verify(truth));
}

#[test]
fn board_that_logic_leaves_open() {
    let truth = painted(2, 2, &[&[1, 0], &[0, 1]]);
    let mut board = truth.into_empty_board();
    assert_eq!(board.try_paint(), Ok(()));
    assert_eq!(board.cells, vec![U, U, U, U]);
    assert_eq!(board.painted_count(), 0);
    assert!(board.verify(truth));
}

#[test]
fn propagation_needs_rows_and_columns() {
    let truth = painted(3, 3, &[&[1, 1, 0], &[1, 1, 1], &[0, 1, 0]]);
    let mut board = truth.into_empty_board();
    assert_eq!(board.try_paint(), Ok(()));
    assert_eq!(board.cells, vec![F, F, E, F, F, F, E, F, E]);
}

#[test]
fn propagating_again_changes_nothing() {
    let truth = painted(4, 3, &[&[1, 0, 1, 1], &[0, 0, 1, 0], &[1, 1, 0, 1]]);
    let mut board = truth.into_empty_board();
    assert_eq!(board.try_paint(), Ok(()));
    let first = board.cells.clone();
    assert_eq!(board.try_paint(), Ok(()));
    assert_eq!(board.cells, first);
}

#[test]
fn passes_never_lose_known_cells() {
    let truth = painted(4, 4, &[&[1, 1, 0, 1], &[0, 1, 1, 1], &[1, 0, 0, 0], &[1, 1, 1, 0]]);
    let mut board = truth.into_empty_board();
    let mut last = board.painted_count();
    for _ in 0..4 {
        let before = board.cells.clone();
        assert_eq!(board.solve_rows(), Ok(()));
        assert_eq!(board.solve_columns(), Ok(()));
        let now = board.painted_count();
        assert!(now >= last);
        for k in 0..before.len() {
            assert!(before[k].is_none() || before[k] == board.cells[k]);
        }
        last = now;
    }
}

#[test]
fn propagation_is_sound_on_all_small_boards() {
    for bits in 0u32..512 {
        let cells: Vec<bool> = (0..9).map(|i| bits & (1 << i) != 0).collect();
        let truth = PaintedBoard::new(3, 3, cells).unwrap();
        let mut board = truth.into_empty_board();
        assert_eq!(board.try_paint(), Ok(()));
        let again = board.cells.clone();
        assert_eq!(board.try_paint(), Ok(()));
        assert_eq!(board.cells, again);
        assert!(board.verify(truth));
    }
}

#[test]
fn contradictory_clues_are_infeasible() {
    let infos = ColumnInfos::new(
        vec![ColumnInfo::new(vec![]), ColumnInfo::new(vec![])],
        vec![ColumnInfo::new(vec![2]), ColumnInfo::new(vec![])],
    );
    let mut board = Board::from_infos(infos).unwrap();
    assert_eq!(board.width, 2);
    assert_eq!(board.height, 2);
    assert_eq!(board.cells, vec![U; 4]);
    assert_eq!(board.try_paint(), Err(Infeasible));
}

#[test]
fn row_of_a_board_without_columns() {
    let infos = ColumnInfos::new(vec![], vec![ColumnInfo::new(vec![1])]);
    let mut board = Board::from_infos(infos).unwrap();
    assert_eq!(board.try_paint(), Err(Infeasible));
    let infos = ColumnInfos::new(vec![], vec![ColumnInfo::new(vec![])]);
    let mut board = Board::from_infos(infos).unwrap();
    assert_eq!(board.try_paint(), Ok(()));
}

#[test]
fn verify_finds_a_wrong_cell() {
    let truth = painted(2, 1, &[&[1, 0]]);
    let mut board = truth.into_empty_board();
    board.set_row(0, Column::new(vec![F, F]));
    assert!(!board.verify(truth));
}

#[test]
fn line_logic_alone_leaves_a_unique_board_open() {
    let truth = painted(4, 4, &[&[0, 0, 0, 0], &[0, 0, 0, 0], &[0, 1, 1, 0], &[1, 0, 0, 1]]);
    let mut board = truth.into_empty_board();
    assert_eq!(board.try_paint(), Ok(()));
    assert_eq!(board.cells, vec![E, E, E, E, E, E, E, E, U, U, U, U, U, U, U, U]);
    for r in 0..4 {
        let mut row = board.get_row(r);
        assert_eq!(row.try_fit(&board.infos.rows[r]).unwrap().cells, row.cells);
    }
    for c in 0..4 {
        let mut column = board.get_column(c);
        assert_eq!(column.try_fit(&board.infos.columns[c]).unwrap().cells, column.cells);
    }
    assert!(board.verify(truth));
}

#[test]
fn board_with_known_cells_is_completed() {
    let truth = painted(2, 2, &[&[1, 0], &[0, 1]]);
    let infos = truth.get_column_infos();
    assert!(Board::new(2, 2, vec![U; 3], infos.clone()).is_none());
    let mut board = Board::new(2, 2, vec![F, U, U, U], infos).unwrap();
    assert_eq!(board.try_paint(), Ok(()));
    assert_eq!(board.cells, vec![F, E, E, F]);
    assert!(board.verify(truth));
}

#[test]
fn known_cell_against_the_clues_is_infeasible() {
    let truth = painted(2, 2, &[&[1, 1], &[0, 0]]);
    let mut board = Board::new(2, 2, vec![U, U, F, U], truth.get_column_infos()).unwrap();
    assert_eq!(board.try_paint(), Err(Infeasible));
}

#[test]
fn board_from_clues_has_their_size() {
    let truth = painted(3, 2, &[&[1, 0, 1], &[0, 1, 1]]);
    let mut board = Board::from_infos(truth.get_column_infos()).unwrap();
    assert_eq!((board.width, board.height), (3, 2));
    assert_eq!(board.try_paint(), Ok(()));
    assert!(board.verify(truth));
}
