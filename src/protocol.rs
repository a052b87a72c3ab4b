//! What nodes say to each other and to their callers: operations, messages,
//! broadcast events and responses, with the records they carry.

use crate::leaderboard::LeaderboardEntry;
use vstd::prelude::*;

verus! {

/// Marker for the application's interface.
pub struct FridayChainArenaAbi;

/// Settings every node shares: which node is the hub.
#[derive(Clone, Copy, Debug)]
pub struct ArenaParameters {
    pub hub_chain_id: u64,
}

/// Argument given when the application is created.
#[derive(Clone, Copy, Debug)]
pub struct InstantiationArgument {
    pub hub_chain_id: u64,
}

/// A registered participant.
#[derive(Clone, Debug)]
pub struct PlayerInfo {
    pub wallet: u64,
    pub discord_username: String,
    pub registered_at_micros: u64,
}

/// A tournament: its puzzle seed, time window and counters.
#[derive(Clone, Copy, Debug, Default)]
pub struct Tournament {
    pub id: u64,
    pub seed: u64,
    pub start_time_micros: u64,
    pub end_time_micros: u64,
    pub active: bool,
    pub total_players: u32,
    pub total_completions: u32,
}

/// A participant node's copy of the hub's leaderboard.
#[derive(Clone, Debug)]
pub struct CachedLeaderboard {
    pub entries: Vec<LeaderboardEntry>,
    pub tournament_id: u64,
    pub is_active: bool,
    pub fetched_at_micros: u64,
}

/// Figures over the current leaderboard.
#[derive(Clone, Copy, Debug, Default)]
pub struct TournamentStats {
    pub tournament_id: u64,
    pub total_players: u32,
    pub total_completions: u32,
    pub average_score: u64,
    pub best_score: u64,
    pub is_active: bool,
}

impl TournamentStats {
    pub open spec fn default_spec() -> TournamentStats {
        TournamentStats {
            tournament_id: 0,
            total_players: 0,
            total_completions: 0,
            average_score: 0,
            best_score: 0,
            is_active: false,
        }
    }

    /// All figures zero, as for no tournament.
    pub fn zero() -> (r: TournamentStats)
        ensures
            r == TournamentStats::default_spec(),
    {
        TournamentStats {
            tournament_id: 0,
            total_players: 0,
            total_completions: 0,
            average_score: 0,
            best_score: 0,
            is_active: false,
        }
    }
}

/// What a caller asks of its node.
#[derive(Clone, Debug)]
pub enum Operation {
    RegisterPlayer { discord_username: String },
    UpdateUsername { new_discord_username: String },
    PlaceCell { row: u8, col: u8, value: u8 },
    ClearCell { row: u8, col: u8 },
    SubscribeToHub,
    RequestLeaderboard { limit: Option<u32> },
    StartTournament { seed: u64, duration_secs: u64 },
    EndTournament,
}

/// One-way messages between participant nodes and the hub.
#[derive(Clone, Debug)]
pub enum Message {
    SyncPlayer(PlayerInfo),
    SyncCellPlacement {
        wallet: u64,
        row: u8,
        col: u8,
        value: u8,
        timestamp_micros: u64,
        penalty_count: u32,
    },
    SyncBoardComplete {
        wallet: u64,
        completion_time_micros: u64,
        penalty_count: u32,
        move_count: u32,
    },
    LeaderboardRequest { requester_chain: u64, limit: u32 },
    LeaderboardResponse { entries: Vec<LeaderboardEntry>, tournament_id: u64, is_active: bool },
    TournamentStarted { tournament_id: u64, seed: u64, start_time_micros: u64, end_time_micros: u64 },
    TournamentEnded { tournament_id: u64, final_rankings: Vec<LeaderboardEntry> },
}

/// Events the hub publishes on its tournament stream.
#[derive(Clone, Debug)]
pub enum ArenaEvent {
    TournamentStarted { tournament_id: u64, seed: u64, start_time_micros: u64, end_time_micros: u64 },
    TournamentEnded { tournament_id: u64, final_rankings: Vec<LeaderboardEntry> },
    PlayerRegistered { wallet: u64, discord_username: String },
    LeaderboardUpdated { entries: Vec<LeaderboardEntry> },
}

#[derive(Clone, Debug)]
pub struct PlayerRegisteredResponse {
    pub wallet: u64,
    pub discord_username: String,
}

#[derive(Clone, Debug)]
pub struct UsernameUpdatedResponse {
    pub wallet: u64,
    pub new_discord_username: String,
}

#[derive(Clone, Copy, Debug)]
pub struct CellPlacedResponse {
    pub row: u8,
    pub col: u8,
    pub value: u8,
    pub valid: bool,
    pub penalty_count: u32,
    pub board_complete: bool,
}

#[derive(Clone, Copy, Debug)]
pub struct CellClearedResponse {
    pub row: u8,
    pub col: u8,
}

#[derive(Clone, Copy, Debug)]
pub struct BoardCompletedResponse {
    pub completion_time_micros: u64,
    pub penalty_count: u32,
    pub score: u64,
}

#[derive(Clone, Copy, Debug)]
pub struct TournamentStartedResponse {
    pub tournament_id: u64,
    pub seed: u64,
    pub start_time_micros: u64,
    pub end_time_micros: u64,
}

#[derive(Clone, Copy, Debug)]
pub struct TournamentEndedResponse {
    pub tournament_id: u64,
    pub total_players: u32,
    pub total_completions: u32,
}

#[derive(Clone, Debug)]
pub struct LeaderboardRequestedResponse {
    pub message: String,
}

#[derive(Clone, Copy, Debug)]
pub struct SubscribedResponse {
    pub hub_chain_id: u64,
}

/// A refused operation; nothing was changed.
#[derive(Clone, Debug)]
pub struct ErrorResponse {
    pub message: String,
}

/// The answer to an operation.
#[derive(Clone, Debug)]
pub enum ArenaResponse {
    PlayerRegistered(PlayerRegisteredResponse),
    UsernameUpdated(UsernameUpdatedResponse),
    CellPlaced(CellPlacedResponse),
    CellCleared(CellClearedResponse),
    BoardCompleted(BoardCompletedResponse),
    TournamentStarted(TournamentStartedResponse),
    TournamentEnded(TournamentEndedResponse),
    LeaderboardRequested(LeaderboardRequestedResponse),
    Subscribed(SubscribedResponse),
    Error(ErrorResponse),
}

/// Something a handler asks the host to do on its behalf.
#[derive(Clone, Debug)]
pub enum Outgoing {
    /// Send `message` to node `to`, authenticated as the current signer.
    Send { to: u64, message: Message },
    /// Publish `event` on the tournament stream.
    Emit(ArenaEvent),
    /// Subscribe to the tournament stream of node `hub`.
    Subscribe { hub: u64 },
}

/// An error response with `message`.
pub fn error_response(message: &str) -> (r: ArenaResponse)
    ensures
        r is Error,
{
    ArenaResponse::Error(ErrorResponse { message: message.to_string() })
}

} // verus!
