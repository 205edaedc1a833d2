use sudoku::Cell;
use sudoku::DigitBoard;
use sudoku::ErrorNoSolution;
use sudoku::Message;
use sudoku::MessageState;
use sudoku::Point;
use sudoku::SudokuSolver;

#[test]
fn fresh_cell_has_entropy_nine() {
    let cell = Cell::new_empty();
    assert_eq!(cell.get_entropy(), 9);
}

#[test]
fn removing_candidates_lowers_entropy() {
    let mut cell = Cell::new_empty();
    assert!(cell.remove(4).is_ok());
    assert_eq!(cell.get_entropy(), 8);
    // removing the same digit again changes nothing
    assert!(cell.remove(4).is_ok());
    assert_eq!(cell.get_entropy(), 8);
    assert!(cell.remove(9).is_ok());
    assert_eq!(cell.get_entropy(), 7);
}

#[test]
fn removing_every_candidate_is_a_contradiction() {
    let mut cell = Cell::new_empty();
    for d in 1..=8u8 {
        assert!(cell.remove(d).is_ok());
    }
    assert_eq!(cell.get_entropy(), 1);
    assert!(cell.remove(9).is_err());
}

#[test]
fn removing_the_committed_digit_is_a_contradiction() {
    let mut cell = Cell::new_filled(7);
    assert!(cell.remove(3).is_ok());
    assert!(cell.remove(7).is_err());
}

#[test]
fn collapse_commits_a_candidate_and_returns_the_rest() {
    let mut cell = Cell::new_empty();
    let rollback = cell.collapse();
    // the cell is now committed to some digit; with nine candidates the
    // rollback square carries the other eight
    match cell {
        Cell::Collapsed(d) => assert!((1..=9).contains(&d)),
        Cell::Uncollapsed(_) => panic!("collapse must commit the square"),
    }
    match rollback {
        Cell::Uncollapsed(_) => assert_eq!(rollback.get_entropy(), 8),
        Cell::Collapsed(_) => panic!("with more than one candidate the rollback is uncollapsed"),
    }
}

#[test]
fn collapse_of_a_forced_cell_returns_the_committed_square() {
    let mut cell = Cell::new_empty();
    for d in 2..=9u8 {
        assert!(cell.remove(d).is_ok());
    }
    assert_eq!(cell.get_entropy(), 1);
    let rollback = cell.collapse();
    match (cell, rollback) {
        (Cell::Collapsed(a), Cell::Collapsed(b)) => {
            assert_eq!(a, 1);
            assert_eq!(b, 1);
        },
        _ => panic!("a forced collapse returns the now-committed square"),
    }
}

#[test]
fn point_scale_multiplies_both_components() {
    let p = Point::new(2, 1).scale(3);
    assert_eq!(p.x, 6);
    assert_eq!(p.y, 3);
    assert_eq!(Point::new(0, 0).scale(3), Point::new(0, 0));
}

#[test]
fn solver_fills_an_empty_seed() {
    let seed: DigitBoard = [None; 81];
    let engine = SudokuSolver::new(&seed).expect("an empty seed is never contradictory");
    let solved = engine.solve().expect("an empty grid always has a solution");
    assert!(solved.iter().all(|c| matches!(c, Some(1..=9))));
}

#[test]
fn solver_rejects_contradictory_seed() {
    let mut seed: DigitBoard = [None; 81];
    seed[0] = Some(5);
    seed[1] = Some(5);
    match SudokuSolver::new(&seed) {
        Err(e) => assert_eq!(e, ErrorNoSolution),
        Ok(engine) => {
            // construction may only fail once propagation reaches the
            // clash; solving must then report the contradiction
            assert!(engine.solve().is_err());
        },
    }
}

#[test]
fn solver_keeps_seeded_digits() {
    let mut seed: DigitBoard = [None; 81];
    seed[0] = Some(4);
    seed[40] = Some(8);
    seed[80] = Some(1);
    let engine = SudokuSolver::new(&seed).expect("this seed is consistent");
    let solved = engine.solve().expect("this seed is solvable");
    assert_eq!(solved[0], Some(4));
    assert_eq!(solved[40], Some(8));
    assert_eq!(solved[80], Some(1));
}

#[test]
fn no_solution_error_describes_itself() {
    assert_eq!(ErrorNoSolution.message(), "Sudoku has no valid solution");
}

#[test]
fn message_starts_blank_and_tracks_state() {
    let mut m = Message::new();
    assert_eq!(m.title, "");
    assert_eq!(m.message, "");
    assert!(m.state == MessageState::Idle);
    m.set(MessageState::Solved);
    assert_eq!(m.title, "Solved!");
    assert_eq!(m.message, "The sudoku has been solved successfully.");
    assert!(m.state == MessageState::Solved);
    m.set(MessageState::Error);
    assert_eq!(m.title, "Error!");
    assert!(m.message.contains("no solution"));
    m.set(MessageState::Idle);
    assert_eq!(m.title, "");
    assert_eq!(m.message, "");
}
