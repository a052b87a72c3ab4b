use fridaychain_arena::leaderboard::{
    apply_progress, completion_entry, new_progress_entry, sort_entries, top_entries,
};
use fridaychain_arena::LeaderboardEntry;

fn entry(wallet: u64, score: u64, completed: bool, completion: u64, pen: u32, moves: u32) -> LeaderboardEntry {
    LeaderboardEntry {
        wallet,
        discord_username: format!("p{}", wallet),
        score,
        completion_time_micros: completion,
        penalty_count: pen,
        move_count: moves,
        completed,
        first_move_time_micros: 1,
        last_move_time_micros: 1,
        is_suspicious: false,
    }
}

fn wallets(v: &[LeaderboardEntry]) -> Vec<u64> {
    v.iter().map(|e| e.wallet).collect()
}

#[test]
fn ranking_order_and_ties() {
    let entries = vec![
        entry(1, 9000, false, 0, 0, 10),
        entry(2, 8000, true, 50, 0, 40),
        entry(3, 8000, true, 40, 0, 40),
        entry(4, 9000, false, 0, 0, 12),
        entry(5, 9000, false, 0, 1, 30),
        entry(6, 9500, true, 90, 0, 40),
        entry(7, 9000, false, 0, 0, 12),
    ];
    let sorted = sort_entries(entries);
    assert_eq!(wallets(&sorted), vec![6, 3, 2, 4, 7, 1, 5]);
}

#[test]
fn sorting_twice_changes_nothing() {
    let entries = vec![
        entry(10, 100, false, 0, 2, 3),
        entry(11, 5000, true, 7, 0, 40),
        entry(12, 4000, false, 0, 0, 8),
    ];
    let once = sort_entries(entries);
    let twice = sort_entries(once.clone());
    assert_eq!(wallets(&once), wallets(&twice));
    assert_eq!(wallets(&once), vec![11, 12, 10]);
}

#[test]
fn completed_rows_come_first() {
    let entries = vec![
        entry(1, 10_000, false, 0, 0, 1),
        entry(2, 0, true, 99, 40, 200),
    ];
    let sorted = sort_entries(entries);
    assert!(sorted[0].completed);
    assert!(!sorted[1].completed);
}

#[test]
fn sorting_empty_list() {
    assert!(sort_entries(Vec::new()).is_empty());
}

#[test]
fn top_entries_truncates_to_limit() {
    let entries: Vec<LeaderboardEntry> = (0..10u64).map(|w| entry(w, w * 10, false, 0, 0, 1)).collect();
    let top = top_entries(&entries, 3);
    assert_eq!(wallets(&top), vec![9, 8, 7]);
    let all = top_entries(&entries, 200);
    assert_eq!(all.len(), 10);
    assert_eq!(top_entries(&entries, 0).len(), 0);
}

#[test]
fn progress_flags_fast_play_and_keeps_the_flag() {
    let start = 1_000_000u64;
    let mut e = new_progress_entry(5, "ann".to_string(), start, 2_000_000, 0);
    assert_eq!(e.move_count, 1);
    assert!(!e.is_suspicious);
    // four more moves one second apart: 1 s per interval
    for k in 1..5u64 {
        apply_progress(&mut e, start, 2_000_000 + k * 1_000_000, 0);
    }
    assert_eq!(e.move_count, 5);
    assert!(e.is_suspicious);
    // a long pause does not clear it
    apply_progress(&mut e, start, 900_000_000, 1);
    assert!(e.is_suspicious);
    assert_eq!(e.penalty_count, 1);
    let done = completion_entry(&Some(e.clone()), 5, "ann".to_string(), start, 3_000_000_000, 1, 6);
    assert!(done.completed);
    assert!(done.is_suspicious);
    assert_eq!(done.first_move_time_micros, 2_000_000);
}

#[test]
fn slow_play_is_not_flagged() {
    let start = 0u64;
    let mut e = new_progress_entry(5, "bo".to_string(), start, 1_000_000, 0);
    for k in 1..10u64 {
        apply_progress(&mut e, start, 1_000_000 + k * 30_000_000, 0);
    }
    assert!(!e.is_suspicious);
    assert_eq!(e.score, 10_000 - 2 * 271);
}

#[test]
fn completion_without_progress_row_starts_at_tournament() {
    let done = completion_entry(&None, 8, "cy".to_string(), 1_000_000, 11_000_000, 0, 5);
    assert_eq!(done.first_move_time_micros, 1_000_000);
    // five moves in ten seconds: 2 s per interval
    assert!(done.is_suspicious);
    assert_eq!(done.score, 10_000 - 20);
    assert_eq!(done.discord_username, "cy");
}

#[test]
fn a_first_move_at_time_zero_is_still_paced() {
    let mut e = new_progress_entry(3, "zed".to_string(), 0, 0, 0);
    for k in 1..4u64 {
        apply_progress(&mut e, 0, k * 100_000, 0);
        assert!(!e.is_suspicious);
    }
    // fifth move one second after the first: well under six seconds per interval
    apply_progress(&mut e, 0, 1_000_000, 0);
    assert_eq!(e.move_count, 5);
    assert!(e.is_suspicious);
}
