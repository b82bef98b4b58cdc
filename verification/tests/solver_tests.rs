use sudoku::{PuzzleError, Sudoku};

const PUZZLE: &str = "700000600060001070804020005000470000089000340000039000600050709010300020003000004";
const SOLUTION: &str = "791543682562981473834726915356478291289615347147239568628154739415397826973862154";

#[test]
fn solve_ok() {
    let s = Sudoku::new();
    let r = s.solve(PUZZLE);
    assert_eq!(r, Ok(SOLUTION.to_string()));
}

#[test]
fn display_ok() {
    let r = Sudoku::display(
        "309800000000500000250009600480000097700000005930000061008300056000006000000007403",
    );
    let expected = vec![
        "3 0 9 |8 0 0 |0 0 0 ",
        "0 0 0 |5 0 0 |0 0 0 ",
        "2 5 0 |0 0 9 |6 0 0 ",
        "------+------+------",
        "4 8 0 |0 0 0 |0 9 7 ",
        "7 0 0 |0 0 0 |0 0 5 ",
        "9 3 0 |0 0 0 |0 6 1 ",
        "------+------+------",
        "0 0 8 |3 0 0 |0 5 6 ",
        "0 0 0 |0 0 6 |0 0 0 ",
        "0 0 0 |0 0 7 |4 0 3 ",
    ];
    let lines = r.unwrap();
    assert_eq!(lines.len(), 11);
    for (line, want) in lines.iter().zip(expected.iter()) {
        assert_eq!(line, want);
    }
}

#[test]
fn solve_err_puzzle() {
    let s = Sudoku::new();
    let r = s.solve(
        "X00000600060001070804020005000470000089000340000039000600050709010300020003000004",
    );
    assert_eq!(r, Err(PuzzleError::InvalidGrid));
    assert_eq!(
        PuzzleError::InvalidGrid.message(),
        "Invalid Grid. Provide a string of 81 digits with 0 or . for empties."
    );
}

#[test]
fn solve_is_deterministic() {
    let s = Sudoku::new();
    let first = s.solve(PUZZLE);
    let second = s.solve(PUZZLE);
    assert_eq!(first, second);
    let other = Sudoku::new();
    assert_eq!(other.solve(PUZZLE), first);
}

#[test]
fn solve_rejects_short_input() {
    let s = Sudoku::new();
    assert_eq!(s.solve("123"), Err(PuzzleError::InvalidGrid));
    assert_eq!(s.solve(""), Err(PuzzleError::InvalidGrid));
}

#[test]
fn solve_rejects_long_input() {
    let s = Sudoku::new();
    let long = format!("{}0", PUZZLE);
    assert_eq!(s.solve(&long), Err(PuzzleError::InvalidGrid));
}

#[test]
fn display_rejects_wrong_length() {
    assert_eq!(Sudoku::display("123"), Err(PuzzleError::InvalidGrid));
    let long = format!("{}0", PUZZLE);
    assert_eq!(Sudoku::display(&long), Err(PuzzleError::InvalidGrid));
}

#[test]
fn solve_ignores_foreign_characters() {
    // Whitespace and other characters outside the alphabet are filtered out.
    let s = Sudoku::new();
    let mut spaced = String::new();
    for (i, c) in PUZZLE.chars().enumerate() {
        spaced.push(c);
        if i % 9 == 8 {
            spaced.push('\n');
        }
    }
    assert_eq!(s.solve(&spaced), Ok(SOLUTION.to_string()));
}

#[test]
fn solve_accepts_dot_empties() {
    let s = Sudoku::new();
    let dotted: String = PUZZLE.chars().map(|c| if c == '0' { '.' } else { c }).collect();
    assert_eq!(s.solve(&dotted), Ok(SOLUTION.to_string()));
}

#[test]
fn solve_contradictory_grid() {
    // Two 7s in the first row: syntactically fine, logically unsolvable.
    let s = Sudoku::new();
    let grid = "770000000000000000000000000000000000000000000000000000000000000000000000000000000";
    assert_eq!(s.solve(grid), Err(PuzzleError::Contradiction));
    assert_eq!(
        PuzzleError::Contradiction.message(),
        "A contradiction occurred. The puzzle is unsolvable."
    );
}

#[test]
fn solve_contradictory_after_propagation() {
    // No duplicate clue, but propagation leaves a cell with no candidate.
    let s = Sudoku::new();
    let grid = "123456780000000009000000000000000000000000000000000000000000000000000000000000000";
    assert_eq!(s.solve(grid), Err(PuzzleError::Contradiction));
}

#[test]
fn display_layout_shape() {
    let lines = Sudoku::display(PUZZLE).unwrap();
    assert_eq!(lines.len(), 11);
    assert_eq!(lines[3], "------+------+------");
    assert_eq!(lines[7], "------+------+------");
    for (i, line) in lines.iter().enumerate() {
        assert_eq!(line.len(), 20);
        if i != 3 && i != 7 {
            assert_eq!(&line[6..7], "|");
            assert_eq!(&line[13..14], "|");
        }
    }
}

#[test]
fn display_works_on_solved_grid() {
    let lines = Sudoku::display(SOLUTION).unwrap();
    assert_eq!(lines.len(), 11);
    assert_eq!(lines[0], "7 9 1 |5 4 3 |6 8 2 ");
}

#[test]
fn solve_round_trip_solved_grid() {
    let s = Sudoku::new();
    assert_eq!(s.solve(SOLUTION), Ok(SOLUTION.to_string()));
}

#[test]
fn solve_empty_grid_gives_valid_solution() {
    // All cells unknown: any returned grid must be a valid solution.
    let s = Sudoku::new();
    let blank: String = std::iter::repeat('0').take(81).collect();
    let out = s.solve(&blank).unwrap();
    assert_eq!(out.len(), 81);
    check_is_solution(&out);
}

#[test]
fn solve_single_missing_cell() {
    // Propagation alone fills a grid with one blank.
    let s = Sudoku::new();
    let mut nearly = String::from("0");
    nearly.push_str(&SOLUTION[1..]);
    assert_eq!(s.solve(&nearly), Ok(SOLUTION.to_string()));
}

#[test]
fn display_ignores_foreign_characters() {
    let mut spaced = String::new();
    for (i, c) in PUZZLE.chars().enumerate() {
        spaced.push(c);
        if i % 9 == 8 {
            spaced.push(' ');
        }
    }
    assert_eq!(Sudoku::display(&spaced), Sudoku::display(PUZZLE));
}

#[test]
fn unsolved_message_text() {
    assert_eq!(PuzzleError::Unsolved.message(), "The puzzle is unsolvable.");
}

/// Checks that every row, column and box of an 81-digit string is a
/// permutation of 1..=9.
fn check_is_solution(out: &str) {
    let digits: Vec<u32> = out.chars().map(|c| c.to_digit(10).unwrap()).collect();
    assert_eq!(digits.len(), 81);
    for k in 0..27 {
        let cells: Vec<usize> = (0..9)
            .map(|j| {
                if k < 9 {
                    9 * j + k
                } else if k < 18 {
                    9 * (k - 9) + j
                } else {
                    let b = k - 18;
                    27 * (b / 3) + 3 * (b % 3) + 9 * (j / 3) + j % 3
                }
            })
            .collect();
        let mut seen = [false; 10];
        for &c in &cells {
            let d = digits[c] as usize;
            assert!((1..=9).contains(&d));
            assert!(!seen[d], "digit repeated in a group");
            seen[d] = true;
        }
    }
}
