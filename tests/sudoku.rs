use fridaychain_arena::sudoku::{generate_puzzle, validate_placement, verify_game};
use fridaychain_arena::PlayerGameState;

#[test]
fn test_deterministic_generation() {
    let board1 = generate_puzzle(42).expect("should generate");
    let board2 = generate_puzzle(42).expect("should generate");
    assert_eq!(board1.puzzle, board2.puzzle);
    assert_eq!(board1.solution, board2.solution);
}

#[test]
fn test_different_seeds_different_puzzles() {
    let board1 = generate_puzzle(1).expect("should generate");
    let board2 = generate_puzzle(2).expect("should generate");
    assert_ne!(board1.puzzle, board2.puzzle);
}

#[test]
fn test_solution_is_valid() {
    let board = generate_puzzle(12345).expect("should generate");
    for r in 0..9 {
        let mut seen = [false; 10];
        for c in 0..9 {
            let v = board.solution[r][c] as usize;
            assert!(v >= 1 && v <= 9, "Invalid value in solution");
            assert!(!seen[v], "Duplicate in row {}", r);
            seen[v] = true;
        }
    }
    for c in 0..9 {
        let mut seen = [false; 10];
        for r in 0..9 {
            let v = board.solution[r][c] as usize;
            assert!(!seen[v], "Duplicate in col {}", c);
            seen[v] = true;
        }
    }
}

#[test]
fn test_puzzle_has_givens_and_blanks() {
    let board = generate_puzzle(999).expect("should generate");
    let mut givens = 0;
    let mut blanks = 0;
    for r in 0..9 {
        for c in 0..9 {
            if board.puzzle[r][c] == 0 {
                blanks += 1;
            } else {
                givens += 1;
                assert_eq!(board.puzzle[r][c], board.solution[r][c]);
            }
        }
    }
    assert!(givens > 0 && blanks > 0);
    assert!(blanks >= 30, "Should remove at least 30 cells, got {}", blanks);
}

#[test]
fn test_validate_placement() {
    let board = generate_puzzle(7777).expect("should generate");
    let state = PlayerGameState::new(&board.puzzle);
    for r in 0..9 {
        for c in 0..9 {
            if !state.given_mask[r][c] {
                let correct_val = board.solution[r][c];
                assert!(
                    validate_placement(&state.board, r, c, correct_val),
                    "Should be valid at ({}, {}) with value {}",
                    r,
                    c,
                    correct_val
                );
                return;
            }
        }
    }
}

#[test]
fn test_verify_game_complete() {
    let seed = 55555;
    let board = generate_puzzle(seed).expect("should generate");
    let state = PlayerGameState::new(&board.puzzle);
    let mut moves = Vec::new();
    for r in 0..9 {
        for c in 0..9 {
            if !state.given_mask[r][c] {
                moves.push((r as u8, c as u8, board.solution[r][c]));
            }
        }
    }
    let result = verify_game(seed, &moves);
    assert!(result.valid);
    assert!(result.board_complete);
    assert_eq!(result.penalty_count, 0);
    assert!(result.final_score > 0);
}
