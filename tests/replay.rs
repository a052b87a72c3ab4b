use fridaychain_arena::sudoku::{generate_puzzle, replay_moves, verify_game, verify_move_inputs};
use fridaychain_arena::{ArenaParameters, ArenaState, Env, MoveInput, PlayerGameState};

fn solving_moves(seed: u64) -> Vec<(u8, u8, u8)> {
    let board = generate_puzzle(seed).expect("should generate");
    let mut moves = Vec::new();
    for r in 0..9 {
        for c in 0..9 {
            if board.puzzle[r][c] == 0 {
                moves.push((r as u8, c as u8, board.solution[r][c]));
            }
        }
    }
    moves
}

#[test]
fn replay_counts_skipped_and_invalid_moves() {
    let seed = 31;
    let board = generate_puzzle(seed).expect("should generate");
    let (gr, gc) = (0..81).map(|i| (i / 9, i % 9)).find(|&(r, c)| board.puzzle[r][c] != 0).unwrap();
    let mut moves = vec![(9u8, 0u8, 1u8), (0, 0, 0), (gr as u8, gc as u8, board.solution[gr][gc])];
    moves.extend(solving_moves(seed));
    let result = verify_game(seed, &moves);
    assert!(result.valid);
    assert_eq!(result.total_moves, moves.len() as u32);
    assert_eq!(result.penalty_count, 3);
    assert!(result.board_complete);
    assert_eq!(result.final_score, 10_000 - 600);
}

#[test]
fn replay_of_an_unfinished_game_scores_zero() {
    let mut moves = solving_moves(8);
    moves.pop();
    let result = verify_game(8, &moves);
    assert!(result.valid);
    assert!(!result.board_complete);
    assert_eq!(result.penalty_count, 0);
    assert_eq!(result.final_score, 0);
}

#[test]
fn replay_of_no_moves() {
    let board = generate_puzzle(4).expect("should generate");
    let result = replay_moves(&board, &[]);
    assert_eq!(result.total_moves, 0);
    assert!(!result.board_complete);
    assert_eq!(result.final_score, 0);
}

#[test]
fn replay_writes_wrong_digits_then_overwrites() {
    let seed = 12;
    let board = generate_puzzle(seed).expect("should generate");
    let (r, c) = (0..81).map(|i| (i / 9, i % 9)).find(|&(r, c)| board.puzzle[r][c] == 0).unwrap();
    let row_digit = (0..9).map(|k| board.puzzle[r][k]).find(|&v| v != 0).unwrap();
    let mut moves = vec![(r as u8, c as u8, row_digit)];
    moves.extend(solving_moves(seed));
    let result = verify_game(seed, &moves);
    assert_eq!(result.penalty_count, 1);
    assert!(result.board_complete);
    assert_eq!(result.final_score, 9_800);
}

#[test]
fn move_records_replay_like_tuples() {
    let moves: Vec<MoveInput> = solving_moves(21)
        .into_iter()
        .map(|(row, col, value)| MoveInput { row, col, value })
        .collect();
    let result = verify_move_inputs(21, &moves);
    assert!(result.board_complete);
    assert_eq!(result.final_score, 10_000);
}

#[test]
fn puzzle_blank_count_is_exact() {
    for seed in [0u64, 1, 42, 999, u64::MAX] {
        let board = generate_puzzle(seed).expect("should generate");
        let blanks = board.puzzle.iter().flatten().filter(|&&v| v == 0).count();
        assert_eq!(blanks, 46);
        let state = PlayerGameState::new(&board.puzzle);
        assert_eq!(state.given_mask.iter().flatten().filter(|&&g| g).count(), 81 - 46);
    }
}

#[test]
fn solution_boxes_hold_every_digit() {
    let board = generate_puzzle(2024).expect("should generate");
    for b in 0..9 {
        let mut seen = [false; 10];
        for k in 0..9 {
            let v = board.solution[3 * (b / 3) + k / 3][3 * (b % 3) + k % 3] as usize;
            assert!(!seen[v]);
            seen[v] = true;
        }
    }
}

#[test]
fn queries_over_the_node_state() {
    let hub_env = |now: u64| Env { chain_id: 1, hub_chain_id: 1, signer: Some(100), now_micros: now };
    let mut hub = ArenaState::new();
    hub.instantiate(ArenaParameters { hub_chain_id: 1 }, Some(100));
    assert!(hub.is_hub(1));
    assert!(!hub.is_hub(2));
    assert!(hub.puzzle_board().is_none());
    assert!(!hub.is_tournament_active());
    for seed in 0..12u64 {
        hub.handle_start_tournament(&hub_env(seed), seed, 60);
        hub.handle_end_tournament(&hub_env(seed));
    }
    let recent = hub.past_tournaments(None);
    assert_eq!(recent.len(), 10);
    assert_eq!(recent[0].id, 12);
    assert_eq!(recent[9].id, 3);
    assert_eq!(hub.past_tournaments(Some(1000)).len(), 12);
    assert_eq!(hub.recent_events_start(Some(5)), 24 - 5);
    let board = generate_puzzle(11).expect("should generate");
    let rows = hub.puzzle_board().unwrap();
    for r in 0..9 {
        assert_eq!(rows[r], board.puzzle[r].to_vec());
    }
    let stats = hub.compute_tournament_stats();
    assert_eq!(stats.tournament_id, 12);
    assert!(!stats.is_active);
    assert_eq!(stats.total_players, 0);
    assert_eq!(stats.average_score, 0);
}
