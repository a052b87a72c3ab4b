//! Competitive Sudoku tournament engine: deterministic puzzle generation,
//! per-participant game state, tournament lifecycle and hub leaderboard.

pub mod arena;
pub mod game;
pub mod generator;
pub mod leaderboard;
pub mod protocol;
pub mod scoring;
pub mod shuffler;
pub mod sudoku;

pub use arena::{ArenaState, Env};
pub use game::PlayerGameState;
pub use leaderboard::LeaderboardEntry;
pub use protocol::{
    ArenaEvent, ArenaParameters, ArenaResponse, BoardCompletedResponse, CachedLeaderboard,
    CellClearedResponse, CellPlacedResponse, ErrorResponse, FridayChainArenaAbi,
    InstantiationArgument, LeaderboardRequestedResponse, Message, Operation, Outgoing, PlayerInfo,
    PlayerRegisteredResponse, SubscribedResponse, Tournament, TournamentEndedResponse,
    TournamentStartedResponse, TournamentStats, UsernameUpdatedResponse,
};
pub use sudoku::{MoveInput, SudokuBoard, VerifyResult};
