use sudoku_sat::formula::sudoku_formula;
use sudoku_sat::solve::decode_model;
use sudoku_sat::DecodeError;
use sudoku_sat::Grid;
use sudoku_sat::SolveError;

const PUZZLE: &str =
    "8          36      7  9 2   5   7       457     1   3   1    68  85   1  9    4  ";

#[test]
fn test_solve() {
    let grid: Grid = Grid::from_str(PUZZLE).unwrap();

    let grid = grid.solve().unwrap();

    println!("{}", grid.to_display_string());
}

#[test]
fn formula_clause_count() {
    let f = sudoku_formula();
    assert_eq!(f.len(), 2916 + 81 + 27 * 9 * 72);
    assert_eq!(f.len(), 20493);
}

#[test]
fn solved_grid_preserves_givens() {
    let solved = Grid::from_str(PUZZLE).unwrap().solve().unwrap();
    for (i, ch) in PUZZLE.chars().enumerate() {
        if ch != ' ' {
            let want = ch.to_digit(10).unwrap() as u8 - 1;
            assert_eq!(solved.get(i % 9, i / 9), Some(want));
        }
    }
}

#[test]
fn solved_grid_has_valid_groups() {
    let solved = Grid::from_str(PUZZLE).unwrap().solve().unwrap();
    for y in 0..9 {
        let mut seen = [false; 9];
        for x in 0..9 {
            let d = solved.get(x, y).unwrap() as usize;
            assert!(!seen[d]);
            seen[d] = true;
        }
        assert!(seen.iter().all(|&b| b));
    }
    for x in 0..9 {
        let mut seen = [false; 9];
        for y in 0..9 {
            let d = solved.get(x, y).unwrap() as usize;
            assert!(!seen[d]);
            seen[d] = true;
        }
        assert!(seen.iter().all(|&b| b));
    }
    for block in 0..9 {
        let mut seen = [false; 9];
        for i in 0..9 {
            let x = (block % 3) * 3 + i % 3;
            let y = (block / 3) * 3 + i / 3;
            let d = solved.get(x, y).unwrap() as usize;
            assert!(!seen[d]);
            seen[d] = true;
        }
        assert!(seen.iter().all(|&b| b));
    }
}

#[test]
fn display_round_trip_after_solve() {
    let solved = Grid::from_str(PUZZLE).unwrap().solve().unwrap();
    let display = solved.to_display_string();
    let stripped: String = display.chars().filter(|c| c.is_ascii_digit()).collect();
    assert_eq!(stripped.len(), 81);
    let reparsed = Grid::from_str(&stripped).unwrap();
    for y in 0..9 {
        for x in 0..9 {
            assert_eq!(reparsed.get(x, y), solved.get(x, y));
        }
    }
}

#[test]
fn duplicate_givens_in_row_are_unsatisfiable() {
    let mut text = String::from("55");
    text.push_str(&" ".repeat(79));
    let grid = Grid::from_str(&text).unwrap();
    assert!(matches!(grid.solve(), Err(SolveError::Unsatisfiable)));
}

#[test]
fn empty_model_leaves_cells_unfilled() {
    let m = vec![false; 729];
    assert!(matches!(decode_model(&m), Err(DecodeError::Unfilled)));
}

#[test]
fn conflicting_model_is_detected() {
    let mut m = vec![false; 729];
    m[0] = true;
    m[1] = true;
    assert!(matches!(decode_model(&m), Err(DecodeError::Conflict)));
}

#[test]
fn consistent_model_decodes_to_grid() {
    let mut m = vec![false; 729];
    for r in 0..9 {
        for c in 0..9 {
            let d = (r + c) % 9;
            m[r * 81 + c * 9 + d] = true;
        }
    }
    let g = decode_model(&m).unwrap();
    for y in 0..9 {
        for x in 0..9 {
            assert_eq!(g.get(x, y), Some(((y + x) % 9) as u8));
        }
    }
}
