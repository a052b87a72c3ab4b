use fridaychain_arena::sudoku::generate_puzzle;
use fridaychain_arena::{
    ArenaEvent, ArenaParameters, ArenaResponse, ArenaState, Env, Message, Operation, Outgoing,
};

const HUB: u64 = 1;
const PLAYER_NODE: u64 = 2;
const ADMIN: u64 = 100;
const PLAYER: u64 = 7;

fn env(chain: u64, signer: Option<u64>, now: u64) -> Env {
    Env { chain_id: chain, hub_chain_id: HUB, signer, now_micros: now }
}

fn hub_with_player() -> ArenaState {
    let mut hub = ArenaState::new();
    assert!(hub.instantiate(ArenaParameters { hub_chain_id: HUB }, Some(ADMIN)));
    let (r, out) = hub.handle_register_player(&env(HUB, Some(PLAYER), 10), "player".to_string());
    assert!(matches!(r, ArenaResponse::PlayerRegistered(_)));
    assert!(out.is_empty());
    hub
}

fn is_error(r: &ArenaResponse) -> bool {
    matches!(r, ArenaResponse::Error(_))
}

#[test]
fn end_to_end_seed_42() {
    let mut hub = hub_with_player();
    let start = 5_000_000u64;
    let (r, out) = hub.handle_start_tournament(&env(HUB, Some(ADMIN), start), 42, 3600);
    match r {
        ArenaResponse::TournamentStarted(t) => {
            assert_eq!(t.tournament_id, 1);
            assert_eq!(t.seed, 42);
            assert_eq!(t.start_time_micros, start);
            assert_eq!(t.end_time_micros, start + 3_600_000_000);
        }
        _ => panic!("tournament should start"),
    }
    assert_eq!(out.len(), 1);
    let board = generate_puzzle(42).expect("should generate");
    assert_eq!(hub.current_puzzle.as_ref().unwrap().puzzle, board.puzzle);
    let now = start + 120_000_000;
    let mut last = None;
    for r in 0..9u8 {
        for c in 0..9u8 {
            if board.puzzle[r as usize][c as usize] == 0 {
                let v = board.solution[r as usize][c as usize];
                let (resp, _) = hub.handle_place_cell(&env(HUB, Some(PLAYER), now), r, c, v);
                assert!(!is_error(&resp));
                last = Some(resp);
            }
        }
    }
    match last.unwrap() {
        ArenaResponse::BoardCompleted(b) => {
            assert_eq!(b.penalty_count, 0);
            assert_eq!(b.completion_time_micros, now);
            assert_eq!(b.score, 10_000 - 2 * 120);
        }
        _ => panic!("board should be completed"),
    }
    let game = &hub.player_games[0].1;
    assert!(game.completed);
    assert_eq!(game.penalty_count, 0);
    assert_eq!(game.completion_time_micros, Some(now));
    assert_eq!(game.move_count, 46);
    assert_eq!(game.start_time_micros, start);
}

#[test]
fn invalid_move_is_recorded_with_a_penalty() {
    let mut hub = hub_with_player();
    hub.handle_start_tournament(&env(HUB, Some(ADMIN), 0), 42, 3600);
    let board = generate_puzzle(42).expect("should generate");
    // a blank cell and a digit its row already holds
    let mut target = None;
    for r in 0..9 {
        for c in 0..9 {
            if board.puzzle[r][c] == 0 && target.is_none() {
                for c2 in 0..9 {
                    if board.puzzle[r][c2] != 0 {
                        target = Some((r, c, board.puzzle[r][c2]));
                        break;
                    }
                }
            }
        }
    }
    let (r, c, v) = target.unwrap();
    let (resp, _) = hub.handle_place_cell(&env(HUB, Some(PLAYER), 1), r as u8, c as u8, v);
    match resp {
        ArenaResponse::CellPlaced(p) => {
            assert!(!p.valid);
            assert_eq!(p.penalty_count, 1);
        }
        _ => panic!("move should be recorded"),
    }
    let game = &hub.player_games[0].1;
    assert_eq!(game.penalty_count, 1);
    assert_eq!(game.move_count, 1);
    assert_eq!(game.board[r][c], v);
}

#[test]
fn placement_refusals() {
    let mut hub = hub_with_player();
    // no tournament yet
    let (r, _) = hub.handle_place_cell(&env(HUB, Some(PLAYER), 1), 0, 0, 1);
    assert!(is_error(&r));
    hub.handle_start_tournament(&env(HUB, Some(ADMIN), 1_000_000), 42, 10);
    // unregistered
    let (r, _) = hub.handle_place_cell(&env(HUB, Some(99), 2_000_000), 0, 0, 1);
    assert!(is_error(&r));
    // no signer
    let (r, _) = hub.handle_place_cell(&env(HUB, None, 2_000_000), 0, 0, 1);
    assert!(is_error(&r));
    // before and after the window
    let (r, _) = hub.handle_place_cell(&env(HUB, Some(PLAYER), 999_999), 0, 0, 1);
    assert!(is_error(&r));
    let (r, _) = hub.handle_place_cell(&env(HUB, Some(PLAYER), 11_000_001), 0, 0, 1);
    assert!(is_error(&r));
    // out of range
    let (r, _) = hub.handle_place_cell(&env(HUB, Some(PLAYER), 2_000_000), 9, 0, 1);
    assert!(is_error(&r));
    let (r, _) = hub.handle_place_cell(&env(HUB, Some(PLAYER), 2_000_000), 0, 0, 10);
    assert!(is_error(&r));
    let (r, _) = hub.handle_place_cell(&env(HUB, Some(PLAYER), 2_000_000), 0, 0, 0);
    assert!(is_error(&r));
    // a given cell
    let board = generate_puzzle(42).expect("should generate");
    let (gr, gc) = (0..81).map(|i| (i / 9, i % 9)).find(|&(r, c)| board.puzzle[r][c] != 0).unwrap();
    let (r, _) = hub.handle_place_cell(&env(HUB, Some(PLAYER), 2_000_000), gr as u8, gc as u8, 1);
    assert!(is_error(&r));
    assert!(hub.player_games.is_empty());
}

#[test]
fn clearing_a_cell() {
    let mut hub = hub_with_player();
    hub.handle_start_tournament(&env(HUB, Some(ADMIN), 0), 42, 3600);
    let board = generate_puzzle(42).expect("should generate");
    let (br, bc) = (0..81).map(|i| (i / 9, i % 9)).find(|&(r, c)| board.puzzle[r][c] == 0).unwrap();
    // no game yet
    let (r, _) = hub.handle_clear_cell(&env(HUB, Some(PLAYER), 1), br as u8, bc as u8);
    assert!(is_error(&r));
    hub.handle_place_cell(&env(HUB, Some(PLAYER), 1), br as u8, bc as u8, board.solution[br][bc]);
    // only a registered participant may clear
    let (r, _) = hub.handle_clear_cell(&env(HUB, Some(99), 2), br as u8, bc as u8);
    assert!(is_error(&r));
    let (r, _) = hub.handle_clear_cell(&env(HUB, Some(PLAYER), 2), br as u8, bc as u8);
    assert!(matches!(r, ArenaResponse::CellCleared(_)));
    assert_eq!(hub.player_games[0].1.board[br][bc], 0);
    assert_eq!(hub.player_games[0].1.move_count, 1);
    let (gr, gc) = (0..81).map(|i| (i / 9, i % 9)).find(|&(r, c)| board.puzzle[r][c] != 0).unwrap();
    let (r, _) = hub.handle_clear_cell(&env(HUB, Some(PLAYER), 2), gr as u8, gc as u8);
    assert!(is_error(&r));
}

#[test]
fn registration_rules() {
    let mut node = ArenaState::new();
    let e = env(PLAYER_NODE, Some(PLAYER), 3);
    let (r, _) = node.handle_register_player(&e, String::new());
    assert!(is_error(&r));
    let (r, _) = node.handle_register_player(&e, "x".repeat(33));
    assert!(is_error(&r));
    let (r, out) = node.handle_register_player(&e, "x".repeat(32));
    assert!(matches!(r, ArenaResponse::PlayerRegistered(_)));
    assert_eq!(out.len(), 1);
    match &out[0] {
        Outgoing::Send { to, message: Message::SyncPlayer(info) } => {
            assert_eq!(*to, HUB);
            assert_eq!(info.wallet, PLAYER);
            assert_eq!(info.registered_at_micros, 3);
        }
        _ => panic!("registration goes to the hub"),
    }
    let (r, _) = node.handle_register_player(&e, "again".to_string());
    assert!(is_error(&r));
    let (r, out) = node.handle_update_username(&e, "renamed".to_string());
    assert!(matches!(r, ArenaResponse::UsernameUpdated(_)));
    assert_eq!(out.len(), 1);
    assert_eq!(node.players[0].discord_username, "renamed");
    let (r, _) = node.handle_update_username(&env(PLAYER_NODE, Some(8), 3), "other".to_string());
    assert!(is_error(&r));
}

#[test]
fn tournament_lifecycle_rules() {
    let mut hub = hub_with_player();
    // not the administrator, not the hub
    let (r, _) = hub.handle_start_tournament(&env(HUB, Some(PLAYER), 0), 1, 60);
    assert!(is_error(&r));
    let (r, _) = hub.handle_start_tournament(&env(PLAYER_NODE, Some(ADMIN), 0), 1, 60);
    assert!(is_error(&r));
    // nothing to end
    let (r, _) = hub.handle_end_tournament(&env(HUB, Some(ADMIN), 0));
    assert!(is_error(&r));
    let (r, _) = hub.handle_start_tournament(&env(HUB, Some(ADMIN), 0), 1, 60);
    assert!(matches!(r, ArenaResponse::TournamentStarted(_)));
    // one at a time
    let (r, _) = hub.handle_start_tournament(&env(HUB, Some(ADMIN), 0), 2, 60);
    assert!(is_error(&r));
    let (r, out) = hub.handle_end_tournament(&env(HUB, Some(ADMIN), 5));
    match r {
        ArenaResponse::TournamentEnded(t) => assert_eq!(t.tournament_id, 1),
        _ => panic!("tournament should end"),
    }
    assert!(matches!(&out[0], Outgoing::Emit(ArenaEvent::TournamentEnded { tournament_id: 1, .. })));
    assert_eq!(hub.past_tournaments.len(), 1);
    assert!(!hub.active_tournament.unwrap().active);
    // ids keep growing
    let (r, _) = hub.handle_start_tournament(&env(HUB, Some(ADMIN), 10), 2, 60);
    match r {
        ArenaResponse::TournamentStarted(t) => assert_eq!(t.tournament_id, 2),
        _ => panic!("second tournament should start"),
    }
    assert_eq!(hub.event_counter, 3);
}

#[test]
fn hub_leaderboard_from_messages() {
    let mut hub = hub_with_player();
    hub.handle_start_tournament(&env(HUB, Some(ADMIN), 0), 9, 3600);
    let e = env(HUB, None, 0);
    hub.execute_message(&e, Message::SyncCellPlacement {
        wallet: PLAYER, row: 0, col: 0, value: 1, timestamp_micros: 10_000_000, penalty_count: 0,
    });
    hub.execute_message(&e, Message::SyncCellPlacement {
        wallet: 55, row: 0, col: 1, value: 2, timestamp_micros: 20_000_000, penalty_count: 1,
    });
    assert_eq!(hub.leaderboard.len(), 2);
    assert_eq!(hub.active_tournament.unwrap().total_players, 2);
    let unknown = hub.leaderboard.iter().find(|x| x.wallet == 55).unwrap();
    assert_eq!(unknown.discord_username, "Unknown");
    assert_eq!(unknown.score, 10_000 - 40 - 100);
    let out = hub.execute_message(&e, Message::SyncBoardComplete {
        wallet: PLAYER, completion_time_micros: 600_000_000, penalty_count: 2, move_count: 50,
    });
    assert_eq!(hub.active_tournament.unwrap().total_completions, 1);
    assert_eq!(hub.leaderboard_log.len(), 1);
    match &out[0] {
        Outgoing::Emit(ArenaEvent::LeaderboardUpdated { entries }) => {
            assert_eq!(entries[0].wallet, PLAYER);
            assert!(entries[0].completed);
            assert_eq!(entries[0].score, 10_000 - 1200 - 200);
        }
        _ => panic!("leaderboard should be published"),
    }
    // a completed row ignores later progress
    hub.execute_message(&e, Message::SyncCellPlacement {
        wallet: PLAYER, row: 0, col: 0, value: 1, timestamp_micros: 700_000_000, penalty_count: 9,
    });
    let done = hub.leaderboard.iter().find(|x| x.wallet == PLAYER).unwrap();
    assert_eq!(done.penalty_count, 2);
    let stats = hub.compute_tournament_stats();
    assert_eq!(stats.total_players, 2);
    assert_eq!(stats.total_completions, 1);
    assert_eq!(stats.best_score, 9_860);
    assert_eq!(stats.average_score, (8_600 + 9_860) / 2);
    let out = hub.execute_message(&e, Message::LeaderboardRequest { requester_chain: PLAYER_NODE, limit: 1 });
    match &out[0] {
        Outgoing::Send { to, message: Message::LeaderboardResponse { entries, tournament_id, is_active } } => {
            assert_eq!(*to, PLAYER_NODE);
            assert_eq!(entries.len(), 1);
            assert_eq!(*tournament_id, 1);
            assert!(*is_active);
        }
        _ => panic!("leaderboard should be sent back"),
    }
}

#[test]
fn participant_follows_the_hub() {
    let mut node = ArenaState::new();
    let e = env(PLAYER_NODE, Some(PLAYER), 77);
    node.process_event(&e, ArenaEvent::TournamentStarted {
        tournament_id: 4, seed: 42, start_time_micros: 0, end_time_micros: 1_000_000_000,
    });
    let board = generate_puzzle(42).expect("should generate");
    assert_eq!(node.current_puzzle.as_ref().unwrap().solution, board.solution);
    assert!(node.cached_leaderboard.is_none());
    node.process_event(&e, ArenaEvent::LeaderboardUpdated { entries: Vec::new() });
    let cached = node.cached_leaderboard.as_ref().unwrap();
    assert_eq!(cached.tournament_id, 4);
    assert!(cached.is_active);
    assert_eq!(cached.fetched_at_micros, 77);
    node.process_event(&e, ArenaEvent::TournamentEnded { tournament_id: 4, final_rankings: Vec::new() });
    assert!(!node.active_tournament.unwrap().active);
    assert!(!node.cached_leaderboard.as_ref().unwrap().is_active);
    let (r, out) = node.execute_operation(&e, Operation::RequestLeaderboard { limit: Some(1000) });
    assert!(matches!(r, ArenaResponse::LeaderboardRequested(_)));
    match &out[0] {
        Outgoing::Send { to, message: Message::LeaderboardRequest { requester_chain, limit } } => {
            assert_eq!(*to, HUB);
            assert_eq!(*requester_chain, PLAYER_NODE);
            assert_eq!(*limit, 200);
        }
        _ => panic!("request goes to the hub"),
    }
}

#[test]
fn a_new_tournament_clears_games_and_leaderboard() {
    let mut hub = hub_with_player();
    hub.handle_start_tournament(&env(HUB, Some(ADMIN), 0), 42, 3600);
    let board = generate_puzzle(42).expect("should generate");
    let (br, bc) = (0..81).map(|i| (i / 9, i % 9)).find(|&(r, c)| board.puzzle[r][c] == 0).unwrap();
    hub.handle_place_cell(&env(HUB, Some(PLAYER), 1), br as u8, bc as u8, board.solution[br][bc]);
    hub.execute_message(&env(HUB, None, 1), Message::SyncCellPlacement {
        wallet: PLAYER, row: br as u8, col: bc as u8, value: 1, timestamp_micros: 1, penalty_count: 0,
    });
    assert_eq!(hub.player_games.len(), 1);
    assert_eq!(hub.leaderboard.len(), 1);
    hub.handle_end_tournament(&env(HUB, Some(ADMIN), 2));
    // the game is over: no more moves
    let (r, _) = hub.handle_place_cell(&env(HUB, Some(PLAYER), 3), br as u8, bc as u8, 1);
    assert!(is_error(&r));
    hub.handle_start_tournament(&env(HUB, Some(ADMIN), 4), 43, 3600);
    assert!(hub.player_games.is_empty());
    assert!(hub.leaderboard.is_empty());
    let next = generate_puzzle(43).expect("should generate");
    assert_eq!(hub.puzzle_board().unwrap()[0], next.puzzle[0].to_vec());
}

#[test]
fn ranked_reads_repeat_and_rerank_unchanged() {
    let mut hub = hub_with_player();
    hub.handle_start_tournament(&env(HUB, Some(ADMIN), 0), 5, 3600);
    let e = env(HUB, None, 0);
    for (w, ts, pen) in [(11u64, 30_000_000u64, 2u32), (12, 10_000_000, 0), (13, 10_000_000, 0), (14, 50_000_000, 1)] {
        hub.execute_message(&e, Message::SyncCellPlacement {
            wallet: w, row: 0, col: 0, value: 1, timestamp_micros: ts, penalty_count: pen,
        });
    }
    hub.execute_message(&e, Message::SyncBoardComplete {
        wallet: 14, completion_time_micros: 900_000_000, penalty_count: 1, move_count: 40,
    });
    let first = hub.get_sorted_leaderboard(50);
    let second = hub.get_sorted_leaderboard(50);
    let ids = |v: &Vec<fridaychain_arena::LeaderboardEntry>| v.iter().map(|x| x.wallet).collect::<Vec<u64>>();
    assert_eq!(ids(&first), ids(&second));
    assert_eq!(ids(&first), vec![14, 12, 13, 11]);
    let reranked = fridaychain_arena::leaderboard::sort_entries(first.clone());
    assert_eq!(ids(&reranked), ids(&first));
}
