use sudoku::adjacency::{constrain_range, solve_non_orthogonal};
use sudoku::grid::{standard_regions, Sudoku, SudokuError, SudokuField};
use sudoku::local::{is_solved, solve_simple};
use sudoku::pointing::solve_spots_overlap;
use sudoku::propagate::propagate_round;

fn empty_grid() -> Sudoku {
    Sudoku::new(&Vec::new()).unwrap()
}

fn standard_grid() -> Sudoku {
    Sudoku::new(&standard_regions()).unwrap()
}

fn can(s: &Sudoku, x: usize, y: usize, digit: usize) -> bool {
    s.field(x, y).possible_values[digit - 1]
}

fn solved(s: &Sudoku, x: usize, y: usize) -> Option<u8> {
    s.field(x, y).solved_value
}

fn assert_solved_cells_have_no_candidates(s: &Sudoku) {
    for x in 0..9 {
        for y in 0..9 {
            let f = s.field(x, y);
            if f.solved_value.is_some() {
                assert!(f.possible_values.iter().all(|&v| !v));
            }
        }
    }
}

#[test]
fn new_grid_is_fresh() {
    let s = standard_grid();
    assert_eq!(s.constraints.len(), 27);
    for (i, c) in s.constraints.iter().enumerate() {
        assert_eq!(c.id, i);
        assert_eq!(c.fields.len(), 9);
    }
    for x in 0..9 {
        for y in 0..9 {
            assert_eq!(solved(&s, x, y), None);
            assert!(s.field(x, y).possible_values.iter().all(|&v| v));
        }
    }
}

#[test]
fn new_rejects_off_grid_coordinates() {
    let regions = vec![vec![(0, 0), (9, 0)]];
    assert!(matches!(Sudoku::new(&regions), Err(SudokuError::InvalidInput)));
    let regions = vec![vec![(0, 0)], vec![(3, 12)]];
    assert!(matches!(Sudoku::new(&regions), Err(SudokuError::InvalidInput)));
}

#[test]
fn standard_regions_shape() {
    let r = standard_regions();
    assert_eq!(r.len(), 27);
    assert_eq!(r[0][4], (0, 4));
    assert_eq!(r[9 + 2][4], (4, 2));
    assert_eq!(r[18 + 4], vec![(3, 3), (3, 4), (3, 5), (4, 3), (4, 4), (4, 5), (5, 3), (5, 4), (5, 5)]);
}

#[test]
fn set_cell_overrides_and_rejects() {
    let mut s = empty_grid();
    assert_eq!(s.set_cell(3, 6, 2), Ok(()));
    assert_eq!(solved(&s, 3, 6), Some(2));
    assert!(s.field(3, 6).possible_values.iter().all(|&v| !v));
    assert_eq!(s.set_cell(3, 6, 7), Ok(()));
    assert_eq!(solved(&s, 3, 6), Some(7));
    assert_eq!(s.set_cell(9, 0, 1), Err(SudokuError::InvalidInput));
    assert_eq!(s.set_cell(0, 9, 1), Err(SudokuError::InvalidInput));
    assert_eq!(s.set_cell(0, 0, 0), Err(SudokuError::InvalidInput));
    assert_eq!(s.set_cell(0, 0, 10), Err(SudokuError::InvalidInput));
    assert_eq!(solved(&s, 0, 0), None);
}

#[test]
fn is_solved_counts_one_candidate() {
    let mut f = SudokuField::fresh();
    assert!(!is_solved(&f));
    f.possible_values = [false; 9];
    assert!(!is_solved(&f));
    f.possible_values[6] = true;
    assert!(is_solved(&f));
    f.possible_values[0] = true;
    assert!(!is_solved(&f));
}

#[test]
fn constrain_range_clips() {
    assert_eq!(constrain_range(-1..2, 0, 9), 0..2);
    assert_eq!(constrain_range(7..10, 0, 9), 7..9);
    assert_eq!(constrain_range(3..6, 0, 9), 3..6);
}

#[test]
fn adjacency_clears_orthogonal_neighbours() {
    let mut s = empty_grid();
    s.set_cell(4, 4, 5).unwrap();
    solve_non_orthogonal(&mut s);
    for &(x, y) in &[(3, 4), (5, 4), (4, 3), (4, 5)] {
        for d in 4..=6 {
            assert!(!can(&s, x, y, d), "({}, {}) still has {}", x, y, d);
        }
        for &d in &[1, 2, 3, 7, 8, 9] {
            assert!(can(&s, x, y, d));
        }
    }
    for &(x, y) in &[(3, 3), (5, 5), (3, 5), (5, 3), (2, 4), (4, 6)] {
        for d in 1..=9 {
            assert!(can(&s, x, y, d));
        }
    }
    assert_eq!(solved(&s, 4, 4), Some(5));
}

#[test]
fn adjacency_clips_at_the_corner() {
    let mut s = empty_grid();
    s.set_cell(0, 0, 1).unwrap();
    solve_non_orthogonal(&mut s);
    for &(x, y) in &[(1, 0), (0, 1)] {
        assert!(!can(&s, x, y, 1));
        assert!(!can(&s, x, y, 2));
        assert!(can(&s, x, y, 3));
    }
    for d in 1..=9 {
        assert!(can(&s, 1, 1, d));
        assert!(can(&s, 2, 0, d));
    }
}

#[test]
fn adjacency_clips_at_the_far_corner() {
    let mut s = empty_grid();
    s.set_cell(8, 8, 9).unwrap();
    solve_non_orthogonal(&mut s);
    for &(x, y) in &[(7, 8), (8, 7)] {
        assert!(!can(&s, x, y, 8));
        assert!(!can(&s, x, y, 9));
        assert!(can(&s, x, y, 7));
    }
    for d in 1..=9 {
        assert!(can(&s, 7, 7, d));
    }
}

fn row_region_grid(last_first: bool) -> Sudoku {
    let mut fields: Vec<(usize, usize)> = (0..9).map(|y| (0, y)).collect();
    if last_first {
        fields.rotate_right(1);
    }
    let mut s = Sudoku::new(&vec![fields]).unwrap();
    for y in 0..8 {
        s.set_cell(0, y, (y + 1) as u8).unwrap();
    }
    s
}

#[test]
fn last_cell_of_a_full_region_is_deduced() {
    let mut s = row_region_grid(false);
    assert!(s.field(0, 8).possible_values.iter().all(|&v| v));
    assert_eq!(solve_simple(&mut s), Ok(()));
    assert_eq!(solved(&s, 0, 8), Some(9));
    for y in 0..8 {
        assert_eq!(solved(&s, 0, y), Some((y + 1) as u8));
    }
    assert_solved_cells_have_no_candidates(&s);
}

#[test]
fn last_cell_visited_first_is_a_hidden_single() {
    let mut s = row_region_grid(true);
    assert_eq!(solve_simple(&mut s), Ok(()));
    assert_eq!(solved(&s, 0, 8), Some(9));
    assert_solved_cells_have_no_candidates(&s);
}

#[test]
fn unit_elimination_reaches_small_regions() {
    let mut s = Sudoku::new(&vec![vec![(2, 2), (2, 3), (5, 5)]]).unwrap();
    s.set_cell(2, 3, 4).unwrap();
    assert_eq!(solve_simple(&mut s), Ok(()));
    assert!(!can(&s, 2, 2, 4));
    assert!(!can(&s, 5, 5, 4));
    assert!(can(&s, 2, 2, 3));
    assert!(can(&s, 6, 6, 4));
    assert_eq!(solved(&s, 2, 2), None);
}

#[test]
fn naked_single_against_a_solved_digit_is_a_contradiction() {
    let mut s = Sudoku::new(&vec![vec![(0, 1), (0, 0)]]).unwrap();
    s.set_cell(0, 0, 1).unwrap();
    s.cells[1].possible_values = [true, false, false, false, false, false, false, false, false];
    assert_eq!(solve_simple(&mut s), Err(SudokuError::Contradiction));
    assert_eq!(solved(&s, 0, 1), None);
}

#[test]
fn pointing_set_clears_the_rest_of_the_line() {
    let mut s = standard_grid();
    for x in 1..3 {
        for y in 0..3 {
            s.cells[x * 9 + y].possible_values[0] = false;
        }
    }
    solve_spots_overlap(&mut s);
    for y in 3..9 {
        assert!(!can(&s, 0, y, 1));
        assert!(can(&s, 0, y, 2));
    }
    for y in 0..3 {
        assert!(can(&s, 0, y, 1));
    }
    assert!(can(&s, 5, 5, 1));
    assert!(can(&s, 1, 5, 1));
    for x in 0..9 {
        for y in 0..9 {
            assert_eq!(solved(&s, x, y), None);
        }
    }
}

#[test]
fn pointing_set_skips_a_digit_already_solved() {
    let mut s = standard_grid();
    s.set_cell(8, 8, 1).unwrap();
    for x in 1..3 {
        for y in 0..3 {
            s.cells[x * 9 + y].possible_values[0] = false;
        }
    }
    solve_spots_overlap(&mut s);
    assert!(!can(&s, 0, 5, 1));
    assert!(can(&s, 0, 5, 2));
    s = standard_grid();
    s.set_cell(0, 8, 1).unwrap();
    for x in 1..3 {
        for y in 0..3 {
            s.cells[x * 9 + y].possible_values[0] = false;
        }
    }
    solve_spots_overlap(&mut s);
    assert!(can(&s, 0, 5, 1));
}

#[test]
fn candidates_only_shrink_over_rounds() {
    let mut s = standard_grid();
    s.set_cell(3, 6, 2).unwrap();
    s.set_cell(0, 0, 5).unwrap();
    let mut before = s.cells.clone();
    for _ in 0..5 {
        assert_eq!(propagate_round(&mut s), Ok(()));
        for i in 0..81 {
            for k in 0..9 {
                if s.cells[i].possible_values[k] {
                    assert!(before[i].possible_values[k]);
                }
            }
            if let Some(v) = before[i].solved_value {
                assert_eq!(s.cells[i].solved_value, Some(v));
            }
        }
        assert_solved_cells_have_no_candidates(&s);
        before = s.cells.clone();
    }
}

fn snapshot(s: &Sudoku) -> Vec<([bool; 9], Option<u8>)> {
    s.cells.iter().map(|f| (f.possible_values, f.solved_value)).collect()
}

#[test]
fn round_on_a_stable_grid_changes_nothing() {
    let mut s = empty_grid();
    let before = snapshot(&s);
    assert_eq!(propagate_round(&mut s), Ok(()));
    assert_eq!(snapshot(&s), before);

    let mut s = standard_grid();
    s.set_cell(4, 4, 5).unwrap();
    let mut stable = false;
    for _ in 0..50 {
        let a = snapshot(&s);
        propagate_round(&mut s).unwrap();
        if snapshot(&s) == a {
            stable = true;
            break;
        }
    }
    assert!(stable);
    let a = snapshot(&s);
    solve_simple(&mut s).unwrap();
    solve_non_orthogonal(&mut s);
    solve_spots_overlap(&mut s);
    assert_eq!(snapshot(&s), a);
}

fn solution(x: usize, y: usize) -> u8 {
    ((x * 3 + x / 3 + y) % 9 + 1) as u8
}

#[test]
fn solved_digits_stay_unique_in_full_regions() {
    let mut s = standard_grid();
    for x in 0..9 {
        for y in 0..9 {
            if (x * 5 + y * 7) % 4 != 0 {
                s.set_cell(x, y, solution(x, y)).unwrap();
            }
        }
    }
    for _ in 0..10 {
        assert_eq!(solve_simple(&mut s), Ok(()));
        solve_spots_overlap(&mut s);
        for c in &s.constraints {
            let mut seen = [false; 10];
            for &(x, y) in &c.fields {
                if let Some(v) = solved(&s, x, y) {
                    assert!(!seen[v as usize]);
                    seen[v as usize] = true;
                }
            }
        }
    }
    for x in 0..9 {
        for y in 0..9 {
            assert_eq!(solved(&s, x, y), Some(solution(x, y)));
        }
    }
}

#[test]
fn has_value_sees_solved_members_only() {
    let mut s = standard_grid();
    s.set_cell(2, 5, 7).unwrap();
    assert!(s.constraints[2].has_value(&s, 7));
    assert!(!s.constraints[2].has_value(&s, 6));
    assert!(s.constraints[9 + 5].has_value(&s, 7));
    assert!(s.constraints[18 + 1].has_value(&s, 7));
    assert!(!s.constraints[0].has_value(&s, 7));
}

#[test]
fn hidden_single_overrides_other_candidates() {
    let mut s = standard_grid();
    for y in 1..9 {
        s.cells[4 * 9 + y].possible_values[2] = false;
    }
    assert!(s.field(4, 0).possible_values.iter().all(|&v| v));
    assert_eq!(solve_simple(&mut s), Ok(()));
    assert_eq!(solved(&s, 4, 0), Some(3));
    assert!(s.field(4, 0).possible_values.iter().all(|&v| !v));
}
