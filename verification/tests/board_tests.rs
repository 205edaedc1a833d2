use sudoku::Sudoku;

fn assert_board_is_valid_solution(board: &Sudoku) {
    assert!(board.check());
    // every row, column, and region holds each digit 1..=9 exactly once
    for y in 0..9 {
        let mut seen = [false; 10];
        for x in 0..9 {
            let d = board.get_cell(x, y).expect("cell must be filled") as usize;
            assert!((1..=9).contains(&d));
            assert!(!seen[d], "duplicate digit in row");
            seen[d] = true;
        }
        assert!(seen[1..].iter().all(|&s| s));
    }
    for x in 0..9 {
        let mut seen = [false; 10];
        for y in 0..9 {
            let d = board.get_cell(x, y).expect("cell must be filled") as usize;
            assert!(!seen[d], "duplicate digit in column");
            seen[d] = true;
        }
        assert!(seen[1..].iter().all(|&s| s));
    }
    for ry in 0..3 {
        for rx in 0..3 {
            let mut seen = [false; 10];
            for dy in 0..3 {
                for dx in 0..3 {
                    let d = board.get_cell(3 * rx + dx, 3 * ry + dy).expect("cell must be filled")
                        as usize;
                    assert!(!seen[d], "duplicate digit in region");
                    seen[d] = true;
                }
            }
            assert!(seen[1..].iter().all(|&s| s));
        }
    }
}

fn snapshot(board: &Sudoku) -> Vec<Option<u8>> {
    let mut cells = Vec::new();
    for y in 0..9 {
        for x in 0..9 {
            cells.push(board.get_cell(x, y));
        }
    }
    cells
}

#[test]
fn empty_board_solves_to_valid_grid() {
    let mut board = Sudoku::new_empty();
    assert!(board.solve().is_ok());
    assert_board_is_valid_solution(&board);
}

#[test]
fn new_empty_has_no_digits_and_nothing_read_only() {
    let board = Sudoku::new_empty();
    for y in 0..9 {
        for x in 0..9 {
            assert_eq!(board.get_cell(x, y), None);
            assert!(!board.is_read_only(x, y));
        }
    }
    assert!(!board.check());
}

#[test]
fn seed_row_of_all_digits_still_solves() {
    let mut board = Sudoku::new_empty();
    for x in 0..9 {
        board.set_cell(x, 0, Some(x as u8 + 1));
    }
    assert!(board.solve().is_ok());
    assert_board_is_valid_solution(&board);
    for x in 0..9 {
        assert_eq!(board.get_cell(x, 0), Some(x as u8 + 1));
    }
}

#[test]
fn duplicate_in_row_yields_no_solution() {
    let mut board = Sudoku::new_empty();
    board.set_cell(0, 0, Some(5));
    board.set_cell(1, 0, Some(5));
    let before = snapshot(&board);
    assert!(board.solve().is_err());
    assert_eq!(snapshot(&board), before, "a failed solve must leave the board unchanged");
}

#[test]
fn duplicate_in_column_yields_no_solution() {
    let mut board = Sudoku::new_empty();
    board.set_cell(4, 1, Some(7));
    board.set_cell(4, 8, Some(7));
    assert!(board.solve().is_err());
}

#[test]
fn duplicate_in_region_yields_no_solution() {
    let mut board = Sudoku::new_empty();
    board.set_cell(0, 0, Some(3));
    board.set_cell(2, 2, Some(3));
    assert!(board.solve().is_err());
}

#[test]
fn solve_is_idempotent() {
    let mut board = Sudoku::new_empty();
    board.set_cell(0, 0, Some(1));
    board.set_cell(5, 3, Some(4));
    assert!(board.solve().is_ok());
    let first = snapshot(&board);
    assert!(board.solve().is_ok());
    assert_eq!(snapshot(&board), first, "solving twice must yield the same digit grid");
}

#[test]
fn failed_solve_fails_again_unchanged() {
    let mut board = Sudoku::new_empty();
    board.set_cell(0, 0, Some(5));
    board.set_cell(1, 0, Some(5));
    let before = snapshot(&board);
    assert!(board.solve().is_err());
    assert_eq!(snapshot(&board), before);
    // the board is unchanged, so a second attempt must fail identically
    assert!(board.solve().is_err());
    assert_eq!(snapshot(&board), before);
}

#[test]
fn solve_keeps_placed_digits() {
    let mut board = Sudoku::new_empty();
    board.set_cell(8, 8, Some(9));
    board.set_cell(3, 4, Some(2));
    assert!(board.solve().is_ok());
    assert_eq!(board.get_cell(8, 8), Some(9));
    assert_eq!(board.get_cell(3, 4), Some(2));
}

#[test]
fn check_rejects_duplicate_on_full_board() {
    let mut board = Sudoku::new_empty();
    assert!(board.solve().is_ok());
    assert!(board.check());
    // overwrite one square with its row neighbour's digit: still full,
    // but now a row holds a duplicate
    let neighbour = board.get_cell(1, 0);
    board.set_cell(0, 0, neighbour);
    assert!(!board.check());
}

#[test]
fn check_rejects_partial_board() {
    let mut board = Sudoku::new_empty();
    assert!(board.solve().is_ok());
    board.set_cell(6, 6, None);
    assert!(!board.check());
}

#[test]
fn set_cell_and_get_cell_round_trip() {
    let mut board = Sudoku::new_empty();
    board.set_cell(2, 7, Some(6));
    assert_eq!(board.get_cell(2, 7), Some(6));
    board.set_cell(2, 7, None);
    assert_eq!(board.get_cell(2, 7), None);
}

#[test]
fn set_cell_ignores_read_only_squares() {
    let board_full = Sudoku::new_puzzle(0);
    let mut board = board_full;
    for y in 0..9 {
        for x in 0..9 {
            assert!(board.is_read_only(x, y));
            let before = board.get_cell(x, y);
            board.set_cell(x, y, None);
            assert_eq!(board.get_cell(x, y), before);
            board.set_cell(x, y, Some(1));
            assert_eq!(board.get_cell(x, y), before);
        }
    }
}

#[test]
fn clear_empties_only_editable_squares() {
    let mut board = Sudoku::new_puzzle(30);
    // fill a couple of editable squares with junk guesses
    let mut edited = 0;
    for y in 0..9 {
        for x in 0..9 {
            if !board.is_read_only(x, y) && edited < 5 {
                board.set_cell(x, y, Some(1));
                edited += 1;
            }
        }
    }
    assert!(edited > 0);
    let givens = snapshot(&board);
    board.clear();
    let mut i = 0;
    for y in 0..9 {
        for x in 0..9 {
            if board.is_read_only(x, y) {
                assert_eq!(board.get_cell(x, y), givens[i]);
                assert!(board.get_cell(x, y).is_some());
            } else {
                assert_eq!(board.get_cell(x, y), None);
            }
            i += 1;
        }
    }
}

#[test]
fn new_puzzle_leaves_exactly_the_requested_holes() {
    for difficulty in [0u8, 1, 17, 40, 81] {
        let board = Sudoku::new_puzzle(difficulty);
        let mut empty = 0;
        for y in 0..9 {
            for x in 0..9 {
                match board.get_cell(x, y) {
                    None => {
                        empty += 1;
                        assert!(!board.is_read_only(x, y));
                    },
                    Some(d) => {
                        assert!((1..=9).contains(&d));
                        assert!(board.is_read_only(x, y));
                    },
                }
            }
        }
        assert_eq!(empty, difficulty as usize);
    }
}

#[test]
fn new_puzzle_solves_and_checks() {
    for difficulty in [0u8, 25, 60, 81] {
        let mut board = Sudoku::new_puzzle(difficulty);
        assert!(!board.check() || difficulty == 0);
        assert!(board.solve().is_ok());
        assert_board_is_valid_solution(&board);
    }
}

#[test]
fn new_puzzle_with_difficulty_81_is_fully_empty() {
    let board = Sudoku::new_puzzle(81);
    for y in 0..9 {
        for x in 0..9 {
            assert_eq!(board.get_cell(x, y), None);
            assert!(!board.is_read_only(x, y));
        }
    }
}

#[test]
fn new_puzzle_with_difficulty_0_is_full_and_read_only() {
    let board = Sudoku::new_puzzle(0);
    for y in 0..9 {
        for x in 0..9 {
            assert!(board.get_cell(x, y).is_some());
            assert!(board.is_read_only(x, y));
        }
    }
    assert!(board.check());
}

#[test]
fn new_puzzle_clamps_difficulty_above_81() {
    let board = Sudoku::new_puzzle(200);
    for y in 0..9 {
        for x in 0..9 {
            assert_eq!(board.get_cell(x, y), None);
        }
    }
}

#[test]
fn two_generated_puzzles_use_random_holes() {
    // 20 holes out of 81: two independent draws picking the very same
    // squares is astronomically unlikely, so this would only fail if the
    // shuffle did nothing at all -- retry once to rule out bad luck
    let holes = |b: &Sudoku| {
        let mut v = Vec::new();
        for y in 0..9 {
            for x in 0..9 {
                if b.get_cell(x, y).is_none() {
                    v.push((x, y));
                }
            }
        }
        v
    };
    let a = holes(&Sudoku::new_puzzle(20));
    let differs = (0..3).any(|_| holes(&Sudoku::new_puzzle(20)) != a);
    assert!(differs, "hole positions never varied across generated puzzles");
}

#[test]
fn to_text_renders_rows_and_dividers() {
    let mut board = Sudoku::new_empty();
    for x in 0..9 {
        board.set_cell(x, 0, Some(x as u8 + 1));
    }
    board.set_cell(0, 8, Some(5));
    let text = board.to_text();
    let mut expected_lines: Vec<String> = Vec::new();
    expected_lines.push("1 2 3 | 4 5 6 | 7 8 9 ".to_string());
    for _ in 0..7 {
        expected_lines.push("      |       |       ".to_string());
    }
    expected_lines.push("5     |       |       ".to_string());
    expected_lines.insert(3, "------+-------+------".to_string());
    expected_lines.insert(7, "------+-------+------".to_string());
    let mut joined = expected_lines.join("\n");
    joined.push('\n');
    assert_eq!(text, joined);
}
