use fridaychain_arena::scoring::{is_suspicious_pace, live_score, replay_score};
use fridaychain_arena::sudoku::generate_puzzle;
use fridaychain_arena::PlayerGameState;

#[test]
fn live_score_exact_values() {
    assert_eq!(live_score(0, 0, 0), 10_000);
    assert_eq!(live_score(1_000_000, 101_000_000, 0), 9_800);
    assert_eq!(live_score(0, 60_000_000, 3), 10_000 - 120 - 300);
    // partial seconds are dropped
    assert_eq!(live_score(0, 1_999_999, 0), 9_998);
}

#[test]
fn live_score_never_negative() {
    assert_eq!(live_score(0, u64::MAX, 0), 0);
    assert_eq!(live_score(0, 0, u32::MAX), 0);
    assert_eq!(live_score(0, 4_999_000_000, 1), 0);
    // an end before the start counts as no time
    assert_eq!(live_score(5_000_000, 1_000_000, 0), 10_000);
}

#[test]
fn live_score_is_monotonic() {
    let mut previous = live_score(0, 0, 0);
    for secs in 0..6000u64 {
        let s = live_score(0, secs * 1_000_000, 0);
        assert!(s <= previous);
        previous = s;
    }
    let mut previous = live_score(0, 10_000_000, 0);
    for pen in 0..200u32 {
        let s = live_score(0, 10_000_000, pen);
        assert!(s <= previous);
        previous = s;
    }
}

#[test]
fn replay_score_ignores_time() {
    assert_eq!(replay_score(0), 10_000);
    assert_eq!(replay_score(1), 9_800);
    assert_eq!(replay_score(50), 0);
    assert_eq!(replay_score(u32::MAX), 0);
}

#[test]
fn calculate_score_uses_penalties() {
    let board = generate_puzzle(3).expect("should generate");
    let mut state = PlayerGameState::new(&board.puzzle);
    state.penalty_count = 2;
    assert_eq!(state.calculate_score(0, 10_000_000), 10_000 - 20 - 200);
}

#[test]
fn pace_threshold() {
    // four moves never count
    assert!(!is_suspicious_pace(1, 1, 4));
    // five moves in 20 s: 5 s per interval
    assert!(is_suspicious_pace(1_000_000, 21_000_000, 5));
    // five moves in 24 s: 6 s per interval
    assert!(!is_suspicious_pace(1_000_000, 25_000_000, 5));
}
