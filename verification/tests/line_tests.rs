use nonogram::clue::{ColumnInfo, PaintedColumn};
use nonogram::line::{same_cell, Column, Infeasible};

const F: Option<bool> = Some(true);
const E: Option<bool> = Some(false);
const U: Option<bool> = None;

fn solve(cells: Vec<Option<bool>>, clue: Vec<usize>) -> Result<Vec<Option<bool>>, Infeasible> {
    Column::new(cells).try_fit(&ColumnInfo::new(clue)).map(|c| c.cells)
}

fn clue_of(cells: &[bool]) -> Vec<usize> {
    PaintedColumn::new(cells.to_vec()).get_info().info
}

/// All lines of `n` cells, by counting in binary.
fn all_lines(n: usize) -> Vec<Vec<bool>> {
    let mut out = Vec::new();
    for bits in 0u32..(1u32 << n) {
        out.push((0..n).map(|i| bits & (1 << i) != 0).collect());
    }
    out
}

/// The forced cells by enumeration of every line of that length.
fn brute(fixed: &[Option<bool>], clue: &[usize]) -> Option<Vec<Option<bool>>> {
    let n = fixed.len();
    let mut acc: Option<Vec<Option<bool>>> = None;
    for line in all_lines(n) {
        if clue_of(&line) != clue {
            continue;
        }
        if (0..n).any(|i| fixed[i].is_some() && fixed[i] != Some(line[i])) {
            continue;
        }
        acc = Some(match acc {
            None => line.iter().map(|&v| Some(v)).collect(),
            Some(a) => (0..n).map(|i| if a[i] == Some(line[i]) { a[i] } else { None }).collect(),
        });
    }
    acc
}

#[test]
fn clue_of_mixed_line() {
    assert_eq!(clue_of(&[true, true, false, true, false, false, true, true, true]), vec![2, 1, 3]);
}

#[test]
fn clue_of_blank_and_empty_lines() {
    assert_eq!(clue_of(&[false, false, false]), Vec::<usize>::new());
    assert_eq!(clue_of(&[]), Vec::<usize>::new());
}

#[test]
fn clue_ignores_leading_and_trailing_empty_cells() {
    assert_eq!(clue_of(&[false, true, true, false]), vec![2]);
    assert_eq!(clue_of(&[true]), vec![1]);
    assert_eq!(clue_of(&[true, true, true]), vec![3]);
}

#[test]
fn single_run_in_the_middle() {
    assert_eq!(solve(vec![U; 5], vec![3]), Ok(vec![U, U, F, U, U]));
}

#[test]
fn empty_clue_gives_empty_cells() {
    assert_eq!(solve(vec![U; 4], vec![]), Ok(vec![E, E, E, E]));
}

#[test]
fn empty_clue_against_a_filled_cell() {
    assert_eq!(solve(vec![U, F, U], vec![]), Err(Infeasible));
}

#[test]
fn runs_that_fit_exactly() {
    assert_eq!(solve(vec![U; 5], vec![2, 2]), Ok(vec![F, F, E, F, F]));
}

#[test]
fn run_that_cannot_avoid_an_empty_cell() {
    assert_eq!(solve(vec![E, U, U], vec![3]), Err(Infeasible));
}

#[test]
fn clue_longer_than_the_line() {
    assert_eq!(solve(vec![U; 3], vec![3, 1]), Err(Infeasible));
    assert_eq!(solve(vec![U; 3], vec![4]), Err(Infeasible));
    assert_eq!(solve(vec![U; 4], vec![2, 2]), Err(Infeasible));
}

#[test]
fn run_of_length_zero() {
    assert_eq!(solve(vec![U; 3], vec![0]), Err(Infeasible));
    assert_eq!(solve(vec![U; 3], vec![1, 0]), Err(Infeasible));
}

#[test]
fn line_without_cells() {
    assert_eq!(solve(vec![], vec![]), Ok(vec![]));
    assert_eq!(solve(vec![], vec![1]), Err(Infeasible));
}

#[test]
fn fixed_cells_pin_the_run() {
    assert_eq!(solve(vec![U, U, U, U, F], vec![2]), Ok(vec![E, E, E, F, F]));
    assert_eq!(solve(vec![U, E, U, U, U], vec![3]), Ok(vec![E, E, F, F, F]));
    assert_eq!(solve(vec![F, U, U, U, U, U], vec![1, 2]), Ok(vec![F, E, U, U, U, U]));
}

#[test]
fn three_runs_with_slack() {
    assert_eq!(
        solve(vec![U; 10], vec![3, 2, 2]),
        Ok(vec![U, F, F, U, U, F, U, U, F, U])
    );
}

#[test]
fn solver_matches_enumeration_without_fixed_cells() {
    for n in 0..=8usize {
        for truth in all_lines(n) {
            let clue = clue_of(&truth);
            let fixed = vec![U; n];
            assert_eq!(solve(fixed.clone(), clue.clone()).ok(), brute(&fixed, &clue));
        }
    }
}

#[test]
fn solver_matches_enumeration_with_fixed_cells() {
    for n in 1..=6usize {
        for truth in all_lines(n) {
            let clue = clue_of(&truth);
            for mask in all_lines(n) {
                let fixed: Vec<Option<bool>> =
                    (0..n).map(|i| if mask[i] { Some(truth[i]) } else { None }).collect();
                let got = solve(fixed.clone(), clue.clone());
                assert_eq!(got.clone().ok(), brute(&fixed, &clue));
                let got = got.unwrap();
                for i in 0..n {
                    assert!(got[i].is_none() || got[i] == Some(truth[i]));
                    assert!(fixed[i].is_none() || got[i] == fixed[i]);
                }
            }
        }
    }
}

#[test]
fn solver_matches_enumeration_on_any_fixed_cells() {
    let clues: Vec<Vec<usize>> = vec![vec![], vec![1], vec![2], vec![1, 1], vec![2, 1], vec![4], vec![1, 1, 1]];
    let n = 5usize;
    let mut fixed = vec![U; n];
    for code in 0..243u32 {
        let mut c = code;
        for i in 0..n {
            fixed[i] = match c % 3 {
                0 => U,
                1 => F,
                _ => E,
            };
            c /= 3;
        }
        for clue in &clues {
            assert_eq!(solve(fixed.clone(), clue.clone()).ok(), brute(&fixed, clue));
        }
    }
}

#[test]
fn solving_twice_changes_nothing() {
    let first = solve(vec![U, U, U, F, U, U, U], vec![2, 2]).unwrap();
    let second = solve(first.clone(), vec![2, 2]).unwrap();
    assert_eq!(first, second);
}

#[test]
fn merge_laws_on_all_cells() {
    let cells = [U, F, E];
    for &a in &cells {
        let la = Column::new(vec![a]);
        assert_eq!(la.merge_lines(&la).cells, vec![a]);
        for &b in &cells {
            let lb = Column::new(vec![b]);
            assert_eq!(la.merge_lines(&lb).cells, lb.merge_lines(&la).cells);
            for &c in &cells {
                let lc = Column::new(vec![c]);
                let left = la.merge_lines(&lb).merge_lines(&lc);
                let right = la.merge_lines(&lb.merge_lines(&lc));
                assert_eq!(left.cells, right.cells);
            }
        }
    }
}

#[test]
fn merge_keeps_equal_cells_only() {
    let a = Column::new(vec![F, F, E, U, E]);
    let b = Column::new(vec![F, E, E, U, U]);
    assert_eq!(a.merge_lines(&b).cells, vec![F, U, E, U, U]);
}

#[test]
fn add_info_starts_with_the_line_and_then_merges() {
    let mut acc: Option<Column> = None;
    Column::new(vec![F, E, F]).add_info(&mut acc);
    assert_eq!(acc.as_ref().unwrap().cells, vec![F, E, F]);
    Column::new(vec![F, F, E]).add_info(&mut acc);
    assert_eq!(acc.as_ref().unwrap().cells, vec![F, U, U]);
}

#[test]
fn fit_in_allows_unknown_cells() {
    let a = Column::new(vec![F, U, E]);
    assert!(a.fit_in(&Column::new(vec![U, F, E])));
    assert!(!a.fit_in(&Column::new(vec![E, U, U])));
}

#[test]
fn full_slice_and_append() {
    let a = Column::full(2, F).append(Column::full(1, U)).append(Column::full(2, E));
    assert_eq!(a.cells, vec![F, F, U, E, E]);
    assert_eq!(a.slice(1, 4).cells, vec![F, U, E]);
    assert_eq!(a.slice(2, 2).cells, Vec::<Option<bool>>::new());
    assert_eq!(Column::full(0, F).cells, Vec::<Option<bool>>::new());
}

#[test]
fn same_cell_compares_values() {
    assert!(same_cell(U, U));
    assert!(same_cell(F, F));
    assert!(!same_cell(F, E));
    assert!(!same_cell(U, E));
}

#[test]
fn column_verify_against_its_line() {
    let truth = vec![true, false, true];
    assert!(Column::new(vec![F, U, U]).verify(PaintedColumn::new(truth.clone())));
    assert!(!Column::new(vec![F, F, U]).verify(PaintedColumn::new(truth.clone())));
    assert_eq!(Column::from_painted(&PaintedColumn::new(truth)).cells, vec![F, E, F]);
}

#[test]
fn solving_leaves_the_line_as_it_was() {
    let mut line = Column::new(vec![U, F, U, U]);
    let solved = line.try_fit(&ColumnInfo::new(vec![3])).unwrap();
    assert_eq!(line.cells, vec![U, F, U, U]);
    assert_eq!(solved.cells, vec![U, F, F, U]);
}

#[test]
fn revealed_cells_are_those_marked() {
    let truth = PaintedColumn::new(vec![true, false, true, false]);
    let line = Column::reveal_from(&truth, &vec![true, true, false, false]);
    assert_eq!(line.cells, vec![F, E, U, U]);
    assert_eq!(line.painted_count(), 2);
    assert_eq!(Column::reveal_from(&truth, &vec![false, true]).cells, vec![U, E, U, U]);
    assert_eq!(Column::new(vec![]).painted_count(), 0);
}

#[test]
fn revealed_line_is_solved_toward_its_truth() {
    let cells = vec![true, true, false, false, true, false];
    let truth = PaintedColumn::new(cells.clone());
    let mut line = Column::reveal_from(&truth, &vec![false, false, false, false, true, false]);
    let solved = line.try_fit(&truth.get_info()).unwrap();
    assert_eq!(solved.cells, vec![U, F, U, E, F, E]);
    assert!(solved.verify(truth));
}
