//! A node's whole state and the handlers that drive it: participant
//! operations, hub administration, and the messages and events between nodes.
//!
//! A node is the hub when its chain is the configured hub chain; hub-only
//! fields stay empty on participant nodes. Every handler runs to completion
//! on its own state and hands back what the host must send or publish.

use crate::game::{inc_sat, lemma_invalid_placement_never_completes, matches_solution, PlayerGameState};
use crate::leaderboard::{
    apply_progress, best_score, cap, completion_entry, completions, copy_entries, find_entry,
    is_completion_row, is_first_progress_row, is_progress_update, new_progress_entry, score_sum,
    summarize, top_entries, top_of, unique_wallets, LeaderboardEntry,
};
use crate::protocol::{
    error_response, ArenaEvent, ArenaParameters, ArenaResponse, BoardCompletedResponse,
    CachedLeaderboard, CellClearedResponse, CellPlacedResponse, LeaderboardRequestedResponse, Message,
    Operation, Outgoing, PlayerInfo, PlayerRegisteredResponse, SubscribedResponse, Tournament,
    TournamentEndedResponse, TournamentStartedResponse, TournamentStats, UsernameUpdatedResponse,
};
use crate::scoring::{live_score_spec, MICROS_PER_SECOND};
use crate::generator::{generate_puzzle, generated_by};
use crate::sudoku::{grid_view, lemma_grid_view_9x9, placement_ok, set_cell, well_formed_board, SudokuBoard};
use vstd::prelude::*;

verus! {

/// Longest display name, in bytes.
pub const MAX_USERNAME_BYTES: usize = 32;

/// Rows a leaderboard request gets when it names no limit.
pub const DEFAULT_LEADERBOARD_LIMIT: u32 = 50;

/// Most rows any leaderboard request or final ranking gets.
pub const MAX_LEADERBOARD_LIMIT: u32 = 200;

/// What the host tells a handler about the call: where it runs, who signed
/// it, and when.
#[derive(Clone, Copy, Debug)]
pub struct Env {
    /// The node running the handler.
    pub chain_id: u64,
    /// The configured hub node.
    pub hub_chain_id: u64,
    /// The authenticated caller, if any.
    pub signer: Option<u64>,
    pub now_micros: u64,
}

/// A node's state. Hub nodes use the registry, tournament, leaderboard and
/// logs; participant nodes use their own players, games and cached snapshot.
pub struct ArenaState {
    pub hub_chain_id: Option<u64>,
    pub admin_owner: Option<u64>,
    pub players: Vec<PlayerInfo>,
    pub player_count: u64,
    pub active_tournament: Option<Tournament>,
    pub tournament_counter: u64,
    pub current_puzzle: Option<SudokuBoard>,
    pub player_games: Vec<(u64, PlayerGameState)>,
    pub leaderboard: Vec<LeaderboardEntry>,
    pub leaderboard_log: Vec<LeaderboardEntry>,
    pub event_log: Vec<ArenaEvent>,
    pub event_counter: u64,
    pub cached_leaderboard: Option<CachedLeaderboard>,
    pub past_tournaments: Vec<Tournament>,
}

/// A display name of 1 to 32 bytes.
pub open spec fn valid_username(name: Seq<char>) -> bool {
    name.len() > 0 && (vstd::utf8::encode_utf8(name).len() as usize) <= MAX_USERNAME_BYTES
}

/// `wallet` has a row in `players`.
pub open spec fn is_registered(players: Seq<PlayerInfo>, wallet: u64) -> bool {
    exists|i: int| 0 <= i < players.len() && (#[trigger] players[i]).wallet == wallet
}

/// `message` sent to the hub, unless this node is the hub.
pub open spec fn to_hub(env: Env, message: Message) -> Seq<Outgoing> {
    if env.chain_id != env.hub_chain_id {
        seq![Outgoing::Send { to: env.hub_chain_id, message }]
    } else {
        Seq::empty()
    }
}

/// The tournament if it is active.
pub open spec fn active_spec(t: Option<Tournament>) -> Option<Tournament> {
    match t {
        Some(x) => if x.active { Some(x) } else { None },
        None => None,
    }
}

/// `wallet` has a game on this node.
pub open spec fn has_game(games: Seq<(u64, PlayerGameState)>, wallet: u64) -> bool {
    exists|i: int| 0 <= i < games.len() && (#[trigger] games[i]).0 == wallet
}

/// The game of `wallet` (meaningful when `has_game`).
pub open spec fn game_at(games: Seq<(u64, PlayerGameState)>, wallet: u64) -> PlayerGameState {
    games[choose|i: int| 0 <= i < games.len() && (#[trigger] games[i]).0 == wallet].1
}

/// At most one game per participant.
pub open spec fn unique_games(games: Seq<(u64, PlayerGameState)>) -> bool {
    forall|i: int, j: int| 0 <= i < j < games.len() ==> (#[trigger] games[i]).0 != (#[trigger] games[j]).0
}

proof fn lemma_game_at_index(games: Seq<(u64, PlayerGameState)>, wallet: u64, i: int)
    requires
        unique_games(games),
        0 <= i < games.len(),
        games[i].0 == wallet,
    ensures
        has_game(games, wallet),
        game_at(games, wallet) == games[i].1,
{
    assert(has_game(games, wallet));
    let j = choose|j: int| 0 <= j < games.len() && (#[trigger] games[j]).0 == wallet;
    if j < i {
        assert(games[j].0 != games[i].0);
    } else if j > i {
        assert(games[i].0 != games[j].0);
    }
}

/// Replacing the game at `i` keeps one game per participant, gives its owner
/// the new game, and leaves every other participant's game as it was.
proof fn lemma_replace_game(games: Seq<(u64, PlayerGameState)>, i: int, g: PlayerGameState)
    requires
        unique_games(games),
        0 <= i < games.len(),
    ensures
        unique_games(games.update(i, (games[i].0, g))),
        has_game(games.update(i, (games[i].0, g)), games[i].0),
        game_at(games.update(i, (games[i].0, g)), games[i].0) == g,
        forall|w: u64| #[trigger] has_game(games.update(i, (games[i].0, g)), w) == has_game(games, w),
        forall|w: u64| w != games[i].0 && has_game(games, w)
            ==> #[trigger] game_at(games.update(i, (games[i].0, g)), w) == game_at(games, w),
{
    let new = games.update(i, (games[i].0, g));
    assert(unique_games(new)) by {
        assert forall|a: int, b: int| 0 <= a < b < new.len() implies (#[trigger] new[a]).0 != (#[trigger] new[b]).0 by {
            assert(new[a].0 == games[a].0 && new[b].0 == games[b].0);
        }
    }
    lemma_game_at_index(new, games[i].0, i);
    assert forall|w: u64| #[trigger] has_game(new, w) == has_game(games, w) by {
        if has_game(new, w) {
            let j = choose|j: int| 0 <= j < new.len() && (#[trigger] new[j]).0 == w;
            assert(games[j].0 == w);
        }
        if has_game(games, w) {
            let j = choose|j: int| 0 <= j < games.len() && (#[trigger] games[j]).0 == w;
            assert(new[j].0 == w);
        }
    }
    assert forall|w: u64| w != games[i].0 && has_game(games, w)
        implies #[trigger] game_at(new, w) == game_at(games, w) by {
        let j = choose|j: int| 0 <= j < games.len() && (#[trigger] games[j]).0 == w;
        lemma_game_at_index(games, w, j);
        assert(new[j].0 == w);
        lemma_game_at_index(new, w, j);
    }
}

fn push_to_hub(env: &Env, message: Message, out: &mut Vec<Outgoing>)
    ensures
        final(out)@ == old(out)@ + to_hub(*env, message),
{
    if env.chain_id != env.hub_chain_id {
        out.push(Outgoing::Send { to: env.hub_chain_id, message });
        assert(final(out)@ =~= old(out)@ + to_hub(*env, message));
    } else {
        assert(old(out)@ + to_hub(*env, message) =~= old(out)@);
    }
}

/// Rows a leaderboard request asks for: 50 by default, at most 200.
pub open spec fn request_limit(limit: Option<u32>) -> u32 {
    let wanted = match limit {
        Some(l) => l,
        None => DEFAULT_LEADERBOARD_LIMIT,
    };
    if wanted < MAX_LEADERBOARD_LIMIT { wanted } else { MAX_LEADERBOARD_LIMIT }
}

/// `base + secs` seconds in microseconds, held at `u64::MAX`.
pub open spec fn window_end(base: u64, secs: u64) -> u64 {
    let d = secs * MICROS_PER_SECOND;
    if base + d > u64::MAX { u64::MAX } else { (base + d) as u64 }
}

fn window_end_exec(base: u64, secs: u64) -> (r: u64)
    ensures
        r == window_end(base, secs),
{
    match secs.checked_mul(MICROS_PER_SECOND) {
        Some(d) => base.saturating_add(d),
        None => u64::MAX,
    }
}

/// The name registered for `wallet` (its first row), or "Unknown".
pub open spec fn name_of(players: Seq<PlayerInfo>, wallet: u64) -> Seq<char>
    decreases players.len(),
{
    if players.len() == 0 {
        "Unknown"@
    } else if players[0].wallet == wallet {
        players[0].discord_username@
    } else {
        name_of(players.drop_first(), wallet)
    }
}

fn lookup_name(players: &Vec<PlayerInfo>, wallet: u64) -> (r: String)
    ensures
        r@ == name_of(players@, wallet),
{
    let mut i: usize = 0;
    assert(players@.subrange(0, players@.len() as int) =~= players@);
    while i < players.len()
        invariant
            i <= players@.len(),
            name_of(players@, wallet) == name_of(players@.subrange(i as int, players@.len() as int), wallet),
        decreases players@.len() - i,
    {
        let ghost rest = players@.subrange(i as int, players@.len() as int);
        assert(rest.drop_first() =~= players@.subrange(i + 1, players@.len() as int));
        if players[i].wallet == wallet {
            return players[i].discord_username.clone();
        }
        i += 1;
    }
    "Unknown".to_string()
}

/// `n + 1`, held at the largest `u64`.
pub open spec fn inc_sat64(n: u64) -> u64 {
    if n == u64::MAX { n } else { (n + 1) as u64 }
}

/// Where the newest `limit` of `count` items start: `limit` defaults to
/// `default` and is capped at `max`.
pub open spec fn window_start(count: usize, limit: Option<u32>, default: u32, max: u32) -> int {
    let wanted = match limit {
        Some(l) => l,
        None => default,
    };
    let n = if wanted < max { wanted as int } else { max as int };
    if count as int > n { count as int - n } else { 0 }
}

/// The first index of the newest `limit` of `count` items (see `window_start`).
pub fn recent_window(count: usize, limit: Option<u32>, default: u32, max: u32) -> (start: usize)
    ensures
        start == window_start(count, limit, default, max),
        start <= count,
{
    let wanted = match limit {
        Some(l) => l,
        None => default,
    };
    let n = if wanted < max { wanted } else { max };
    count.saturating_sub(n as usize)
}

fn find_player(players: &Vec<PlayerInfo>, wallet: u64) -> (r: Option<usize>)
    ensures
        r matches Some(i) ==> i < players@.len() && players@[i as int].wallet == wallet,
        r is None <==> !is_registered(players@, wallet),
{
    let mut i: usize = 0;
    while i < players.len()
        invariant
            i <= players@.len(),
            forall|k: int| 0 <= k < i ==> (#[trigger] players@[k]).wallet != wallet,
        decreases players@.len() - i,
    {
        if players[i].wallet == wallet {
            return Some(i);
        }
        i += 1;
    }
    None
}

fn find_game(games: &Vec<(u64, PlayerGameState)>, wallet: u64) -> (r: Option<usize>)
    ensures
        r matches Some(i) ==> i < games@.len() && games@[i as int].0 == wallet,
        r is None ==> forall|k: int| 0 <= k < games@.len() ==> (#[trigger] games@[k]).0 != wallet,
{
    let mut i: usize = 0;
    while i < games.len()
        invariant
            i <= games@.len(),
            forall|k: int| 0 <= k < i ==> (#[trigger] games@[k]).0 != wallet,
        decreases games@.len() - i,
    {
        if games[i].0 == wallet {
            return Some(i);
        }
        i += 1;
    }
    None
}

fn username_ok(name: &String) -> (r: bool)
    ensures
        r == valid_username(name@),
{
    let s = name.as_str();
    assert(s@ == name@);
    !s.is_empty() && s.len() <= MAX_USERNAME_BYTES
}

impl ArenaState {
    /// The current puzzle is a well-formed board; every game board has the
    /// Sudoku shape and is bound to that puzzle (its givens unchanged), each participant has at most one game,
    /// and the leaderboard has one row per participant.
    pub open spec fn wf(&self) -> bool {
        &&& forall|k: int| 0 <= k < self.player_games@.len() ==> (#[trigger] self.player_games@[k]).1.wf()
        &&& self.current_puzzle matches Some(b) ==> well_formed_board(b)
        &&& forall|k: int| 0 <= k < self.player_games@.len() && self.current_puzzle is Some
            ==> (#[trigger] self.player_games@[k]).1.bound_to(grid_view(self.current_puzzle->Some_0.puzzle))
        &&& unique_games(self.player_games@)
        &&& unique_wallets(self.leaderboard@)
    }

    /// The cells, penalty and move counts a placement by `wallet` starts from:
    /// its game, or a fresh board of `puzzle`.
    pub open spec fn prior_cells(&self, wallet: u64, puzzle: SudokuBoard) -> Seq<Seq<u8>> {
        if has_game(self.player_games@, wallet) {
            game_at(self.player_games@, wallet).cells()
        } else {
            grid_view(puzzle.puzzle)
        }
    }

    pub open spec fn prior_penalties(&self, wallet: u64) -> u32 {
        if has_game(self.player_games@, wallet) { game_at(self.player_games@, wallet).penalty_count } else { 0 }
    }

    pub open spec fn prior_moves(&self, wallet: u64) -> u32 {
        if has_game(self.player_games@, wallet) { game_at(self.player_games@, wallet).move_count } else { 0 }
    }

    pub open spec fn prior_completion_time(&self, wallet: u64) -> Option<u64> {
        if has_game(self.player_games@, wallet) { game_at(self.player_games@, wallet).completion_time_micros } else { None }
    }

    pub open spec fn prior_score(&self, wallet: u64) -> u64 {
        if has_game(self.player_games@, wallet) { game_at(self.player_games@, wallet).score } else { 0 }
    }

    /// The cell is a given of `wallet`'s game (of the puzzle, for a fresh game).
    pub open spec fn is_given_for(&self, wallet: u64, puzzle: SudokuBoard, row: int, col: int) -> bool {
        if has_game(self.player_games@, wallet) {
            game_at(self.player_games@, wallet).given(row, col)
        } else {
            grid_view(puzzle.puzzle)[row][col] != 0
        }
    }

    /// `wallet`'s game is already completed.
    pub open spec fn finished(&self, wallet: u64) -> bool {
        has_game(self.player_games@, wallet) && game_at(self.player_games@, wallet).completed
    }

    /// `now` lies outside the active tournament's window, or none is active.
    pub open spec fn outside_window(&self, now: u64) -> bool {
        match active_spec(self.active_tournament) {
            Some(t) => now < t.start_time_micros || now > t.end_time_micros,
            None => true,
        }
    }

    /// When a placement is refused: no signer, an unregistered signer, no
    /// active tournament or a time outside its window, a cell or digit out of
    /// range, no puzzle, a completed board, or a given cell.
    pub open spec fn place_cell_refused(&self, env: Env, row: u8, col: u8, value: u8) -> bool {
        match env.signer {
            None => true,
            Some(w) => {
                ||| !is_registered(self.players@, w)
                ||| self.outside_window(env.now_micros)
                ||| row > 8 || col > 8 || value < 1 || value > 9
                ||| self.current_puzzle is None
                ||| self.finished(w)
                ||| self.is_given_for(w, self.current_puzzle->Some_0, row as int, col as int)
            },
        }
    }

    /// When clearing is refused: no signer, an unregistered signer, no active
    /// tournament or a time outside its window, a cell out of range, no game,
    /// a completed board, or a given cell.
    pub open spec fn clear_cell_refused(&self, env: Env, row: u8, col: u8) -> bool {
        match env.signer {
            None => true,
            Some(w) => {
                ||| !is_registered(self.players@, w)
                ||| self.outside_window(env.now_micros)
                ||| row > 8 || col > 8
                ||| !has_game(self.player_games@, w)
                ||| game_at(self.player_games@, w).completed
                ||| game_at(self.player_games@, w).given(row as int, col as int)
            },
        }
    }

    /// An empty node.
    pub fn new() -> (s: Self)
        ensures
            s.wf(),
            s.hub_chain_id is None,
            s.admin_owner is None,
            s.players@.len() == 0,
            s.player_count == 0,
            s.active_tournament is None,
            s.tournament_counter == 0,
            s.current_puzzle is None,
            s.player_games@.len() == 0,
            s.leaderboard@.len() == 0,
            s.leaderboard_log@.len() == 0,
            s.event_log@.len() == 0,
            s.event_counter == 0,
            s.cached_leaderboard is None,
            s.past_tournaments@.len() == 0,
    {
        ArenaState {
            hub_chain_id: None,
            admin_owner: None,
            players: Vec::new(),
            player_count: 0,
            active_tournament: None,
            tournament_counter: 0,
            current_puzzle: None,
            player_games: Vec::new(),
            leaderboard: Vec::new(),
            leaderboard_log: Vec::new(),
            event_log: Vec::new(),
            event_counter: 0,
            cached_leaderboard: None,
            past_tournaments: Vec::new(),
        }
    }

    /// Records the hub and makes the signer the administrator. Refused (false,
    /// nothing changed) without a signer.
    pub fn instantiate(&mut self, params: ArenaParameters, signer: Option<u64>) -> (ok: bool)
        ensures
            ok == signer is Some,
            ok ==> final(self).hub_chain_id == Some(params.hub_chain_id) && final(self).admin_owner == signer,
            !ok ==> final(self).hub_chain_id == old(self).hub_chain_id && final(self).admin_owner == old(self).admin_owner,
            final(self).players == old(self).players,
            final(self).active_tournament == old(self).active_tournament,
            final(self).player_games == old(self).player_games,
            final(self).leaderboard == old(self).leaderboard,
    {
        match signer {
            Some(admin) => {
                self.hub_chain_id = Some(params.hub_chain_id);
                self.admin_owner = Some(admin);
                true
            },
            None => false,
        }
    }

    /// This node is the configured hub.
    pub fn is_hub(&self, chain_id: u64) -> (r: bool)
        ensures
            r == (self.hub_chain_id == Some(chain_id)),
    {
        match self.hub_chain_id {
            Some(hub) => hub == chain_id,
            None => false,
        }
    }

    /// The current tournament, if it is active.
    pub fn get_active_tournament(&self) -> (r: Option<Tournament>)
        ensures
            r == active_spec(self.active_tournament),
    {
        match self.active_tournament {
            Some(t) => if t.active { Some(t) } else { None },
            None => None,
        }
    }

    /// Figures over the leaderboard for the current tournament; all zero
    /// when there is none.
    pub fn compute_tournament_stats(&self) -> (r: TournamentStats)
        ensures
            self.active_tournament is None ==> r == TournamentStats::default_spec(),
            self.active_tournament matches Some(t) ==> {
                &&& r.tournament_id == t.id
                &&& r.is_active == t.active
                &&& r.total_players == cap(self.leaderboard@.len() as int, u32::MAX as int)
                &&& r.total_completions == cap(completions(self.leaderboard@), u32::MAX as int)
                &&& r.average_score == if r.total_players == 0 { 0 } else {
                    cap(score_sum(self.leaderboard@), u64::MAX as int) / r.total_players as int }
                &&& r.best_score == best_score(self.leaderboard@)
            },
    {
        match self.active_tournament {
            None => TournamentStats::zero(),
            Some(t) => {
                let (total_players, total_completions, average_score, best_score) = summarize(&self.leaderboard);
                TournamentStats {
                    tournament_id: t.id,
                    total_players,
                    total_completions,
                    average_score,
                    best_score,
                    is_active: t.active,
                }
            },
        }
    }

    /// The newest archived tournaments, newest first: `limit` of them (10 if
    /// none is given), at most 100.
    pub fn past_tournaments(&self, limit: Option<u32>) -> (r: Vec<Tournament>)
        ensures
            ({
                let n = self.past_tournaments@.len();
                let start = window_start(n as usize, limit, 10, 100);
                r@ == self.past_tournaments@.subrange(start, n as int).reverse()
            }),
    {
        let count = self.past_tournaments.len();
        let start = recent_window(count, limit, 10, 100);
        let mut r: Vec<Tournament> = Vec::new();
        let mut i: usize = count;
        while i > start
            invariant
                start <= i <= count,
                count == self.past_tournaments@.len(),
                r@ == self.past_tournaments@.subrange(i as int, count as int).reverse(),
            decreases i,
        {
            i -= 1;
            r.push(self.past_tournaments[i]);
            assert(r@ =~= self.past_tournaments@.subrange(i as int, count as int).reverse());
        }
        r
    }

    /// Where the newest `limit` events of the log start (20 if none is
    /// given, at most 100); the host lists them newest first.
    pub fn recent_events_start(&self, limit: Option<u32>) -> (start: usize)
        ensures
            start == window_start(self.event_log@.len() as usize, limit, 20, 100),
            start <= self.event_log@.len(),
    {
        recent_window(self.event_log.len(), limit, 20, 100)
    }

    /// Whether the current tournament is active (false with none).
    pub fn is_tournament_active(&self) -> (r: bool)
        ensures
            r == (self.active_tournament matches Some(t) && t.active),
    {
        match self.active_tournament {
            Some(t) => t.active,
            None => false,
        }
    }

    /// The current puzzle's grid, rows of nine digits with 0 for blanks. The
    /// solution is never handed out.
    pub fn puzzle_board(&self) -> (r: Option<Vec<Vec<u8>>>)
        ensures
            self.current_puzzle is None ==> r is None,
            self.current_puzzle matches Some(b) ==> r matches Some(rows)
                && crate::sudoku::board_view(rows@) == grid_view(b.puzzle),
    {
        match &self.current_puzzle {
            None => None,
            Some(b) => {
                let mut rows: Vec<Vec<u8>> = Vec::new();
                let mut i: usize = 0;
                while i < 9
                    invariant
                        i <= 9,
                        rows@.len() == i,
                        forall|k: int| 0 <= k < i ==> (#[trigger] rows@[k])@ == grid_view(b.puzzle)[k],
                    decreases 9 - i,
                {
                    let mut row: Vec<u8> = Vec::new();
                    let mut j: usize = 0;
                    while j < 9
                        invariant
                            i < 9,
                            j <= 9,
                            row@.len() == j,
                            forall|c: int| 0 <= c < j ==> row@[c] == grid_view(b.puzzle)[i as int][c],
                        decreases 9 - j,
                    {
                        row.push(b.puzzle[i][j]);
                        j += 1;
                    }
                    assert(row@ =~= grid_view(b.puzzle)[i as int]);
                    rows.push(row);
                    i += 1;
                }
                assert(crate::sudoku::board_view(rows@) =~= grid_view(b.puzzle));
                Some(rows)
            },
        }
    }

    /// A copy of every registered player.
    pub fn all_players(&self) -> (r: Vec<PlayerInfo>)
        ensures
            r@ == self.players@,
    {
        let mut r: Vec<PlayerInfo> = Vec::new();
        let mut i: usize = 0;
        while i < self.players.len()
            invariant
                i <= self.players@.len(),
                r@ == self.players@.subrange(0, i as int),
            decreases self.players@.len() - i,
        {
            let p = &self.players[i];
            r.push(PlayerInfo {
                wallet: p.wallet,
                discord_username: p.discord_username.clone(),
                registered_at_micros: p.registered_at_micros,
            });
            i += 1;
            assert(r@ =~= self.players@.subrange(0, i as int));
        }
        assert(r@ =~= self.players@);
        r
    }

    /// The first `limit` rows of the ranked leaderboard (see `top_entries`).
    pub fn get_sorted_leaderboard(&self, limit: u32) -> (r: Vec<LeaderboardEntry>)
        requires
            self.wf(),
        ensures
            top_of(r@, self.leaderboard@, limit),
            unique_wallets(r@),
    {
        top_entries(&self.leaderboard, limit)
    }

    /// The signer is the administrator.
    pub open spec fn is_admin(&self, env: Env) -> bool {
        env.signer is Some && self.admin_owner == env.signer
    }

    /// Starts the next tournament on the hub: the next id, a window from now
    /// lasting `duration_secs`, the puzzle of `seed`, no games and an empty
    /// leaderboard; the start is logged and published. Refused, with nothing
    /// changed, for a caller other than the administrator, on a node other
    /// than the hub, while a tournament is active, or when ids run out.
    pub fn handle_start_tournament(&mut self, env: &Env, seed: u64, duration_secs: u64) -> (res: (ArenaResponse, Vec<Outgoing>))
        requires
            old(self).wf(),
        ensures
            final(self).wf(),
            start_tournament_effect(*old(self), *final(self), *env, seed, duration_secs, res),
    {
        match (env.signer, self.admin_owner) {
            (Some(signer), Some(admin)) => {
                if signer != admin {
                    return (error_response("Only admin can perform this operation"), Vec::new());
                }
            },
            _ => return (error_response("Only admin can perform this operation"), Vec::new()),
        }
        if env.chain_id != env.hub_chain_id {
            return (error_response("StartTournament can only be called on the Hub chain"), Vec::new());
        }
        if self.get_active_tournament().is_some() {
            return (error_response("A tournament is already active. End it first."), Vec::new());
        }
        if self.tournament_counter == u64::MAX {
            return (error_response("No tournament ids are left"), Vec::new());
        }
        let now = env.now_micros;
        let id = self.tournament_counter + 1;
        let end = window_end_exec(now, duration_secs);
        let puzzle = generate_puzzle(seed);
        self.tournament_counter = id;
        self.current_puzzle = puzzle;
        self.active_tournament = Some(Tournament {
            id, seed, start_time_micros: now, end_time_micros: end, active: true,
            total_players: 0, total_completions: 0,
        });
        self.leaderboard = Vec::new();
        self.player_games = Vec::new();
        self.event_log.push(ArenaEvent::TournamentStarted {
            tournament_id: id, seed, start_time_micros: now, end_time_micros: end,
        });
        self.event_counter = self.event_counter.saturating_add(1);
        let mut out: Vec<Outgoing> = Vec::new();
        out.push(Outgoing::Emit(ArenaEvent::TournamentStarted {
            tournament_id: id, seed, start_time_micros: now, end_time_micros: end,
        }));
        assert(out@ =~= seq![Outgoing::Emit(ArenaEvent::TournamentStarted {
            tournament_id: id, seed, start_time_micros: now, end_time_micros: end,
        })]);
        (ArenaResponse::TournamentStarted(TournamentStartedResponse {
            tournament_id: id, seed, start_time_micros: now, end_time_micros: end,
        }), out)
    }

    /// Ends the active tournament on the hub: it is marked inactive and
    /// archived, and its final ranking (the top 200 rows) is logged and
    /// published. Refused, with nothing changed, for a caller other than the
    /// administrator, on a node other than the hub, or with no active tournament.
    pub fn handle_end_tournament(&mut self, env: &Env) -> (res: (ArenaResponse, Vec<Outgoing>))
        requires
            old(self).wf(),
        ensures
            final(self).wf(),
            end_tournament_effect(*old(self), *final(self), *env, res),
    {
        match (env.signer, self.admin_owner) {
            (Some(signer), Some(admin)) => {
                if signer != admin {
                    return (error_response("Only admin can perform this operation"), Vec::new());
                }
            },
            _ => return (error_response("Only admin can perform this operation"), Vec::new()),
        }
        if env.chain_id != env.hub_chain_id {
            return (error_response("EndTournament can only be called on the Hub chain"), Vec::new());
        }
        let mut tournament = match self.get_active_tournament() {
            Some(t) => t,
            None => return (error_response("No active tournament to end"), Vec::new()),
        };
        tournament.active = false;
        let final_rankings = self.get_sorted_leaderboard(MAX_LEADERBOARD_LIMIT);
        let ghost rankings = final_rankings@;
        let published = copy_entries(&final_rankings);
        let ghost old_log = self.event_log@;
        self.past_tournaments.push(tournament);
        self.active_tournament = Some(tournament);
        self.event_log.push(ArenaEvent::TournamentEnded { tournament_id: tournament.id, final_rankings });
        self.event_counter = self.event_counter.saturating_add(1);
        let mut out: Vec<Outgoing> = Vec::new();
        out.push(Outgoing::Emit(ArenaEvent::TournamentEnded { tournament_id: tournament.id, final_rankings: published }));
        proof {
            assert(self.event_log@.subrange(0, old_log.len() as int) =~= old_log);
            assert(top_of(rankings, self.leaderboard@, MAX_LEADERBOARD_LIMIT));
        }
        (ArenaResponse::TournamentEnded(TournamentEndedResponse {
            tournament_id: tournament.id,
            total_players: tournament.total_players,
            total_completions: tournament.total_completions,
        }), out)
    }

    /// The hub records a participant's registration or new name. A first
    /// registration also counts the participant and logs the event.
    pub fn handle_sync_player(&mut self, player_info: PlayerInfo)
        requires
            old(self).wf(),
        ensures
            final(self).wf(),
            sync_player_effect(*old(self), *final(self), player_info),
    {
        let wallet = player_info.wallet;
        match find_player(&self.players, wallet) {
            Some(i) => {
                self.players.set(i, player_info);
            },
            None => {
                let name = player_info.discord_username.clone();
                self.players.push(player_info);
                self.player_count = self.player_count.saturating_add(1);
                self.event_log.push(ArenaEvent::PlayerRegistered { wallet, discord_username: name });
                self.event_counter = self.event_counter.saturating_add(1);
            },
        }
    }

    /// The hub hears of one move. With no active tournament nothing changes.
    /// A participant's first move makes its row (named from the registry, or
    /// "Unknown") and counts the participant; a later move updates an
    /// unfinished row; a completed row stays as it is.
    pub fn handle_sync_cell_placement(
        &mut self,
        wallet: u64,
        row: u8,
        col: u8,
        value: u8,
        timestamp_micros: u64,
        penalty_count: u32,
    )
        requires
            old(self).wf(),
        ensures
            final(self).wf(),
            sync_cell_placement_effect(*old(self), *final(self), wallet, row, col, value, timestamp_micros, penalty_count),
    {
        let tournament = match self.get_active_tournament() {
            Some(t) => t,
            None => return,
        };
        match find_entry(&self.leaderboard, wallet) {
            None => {
                let name = lookup_name(&self.players, wallet);
                let entry = new_progress_entry(wallet, name, tournament.start_time_micros, timestamp_micros, penalty_count);
                let ghost before = self.leaderboard@;
                self.leaderboard.push(entry);
                proof {
                    let after = self.leaderboard@;
                    assert(after.drop_last() =~= before);
                    assert forall|a: int, b: int| 0 <= a < b < after.len()
                        implies (#[trigger] after[a]).wallet != (#[trigger] after[b]).wallet by {
                        if b == before.len() {
                            assert(before[a].wallet != wallet);
                        } else {
                            assert(after[a] == before[a] && after[b] == before[b]);
                        }
                    }
                }
                let mut t = tournament;
                t.total_players = t.total_players.saturating_add(1);
                self.active_tournament = Some(t);
            },
            Some(i) => {
                if self.leaderboard[i].completed {
                    return;
                }
                let ghost before = self.leaderboard@;
                apply_progress(&mut self.leaderboard[i], tournament.start_time_micros, timestamp_micros, penalty_count);
                proof {
                    let after = self.leaderboard@;
                    assert(after =~= before.update(i as int, after[i as int]));
                    assert forall|a: int, b: int| 0 <= a < b < after.len()
                        implies (#[trigger] after[a]).wallet != (#[trigger] after[b]).wallet by {
                        assert(after[a].wallet == before[a].wallet && after[b].wallet == before[b].wallet);
                    }
                }
            },
        }
    }

    /// The hub hears that a participant completed its board. With no
    /// tournament nothing changes. Otherwise the participant's row is replaced
    /// (or made) by the finished row, which is also appended to the audit log;
    /// completions are counted, and the top 50 rows are published.
    pub fn handle_sync_board_complete(
        &mut self,
        wallet: u64,
        completion_time_micros: u64,
        penalty_count: u32,
        move_count: u32,
    ) -> (out: Vec<Outgoing>)
        requires
            old(self).wf(),
        ensures
            final(self).wf(),
            sync_board_complete_effect(*old(self), *final(self), wallet, completion_time_micros, penalty_count, move_count, out),
    {
        let tournament = match self.active_tournament {
            Some(t) => t,
            None => return Vec::new(),
        };
        let name = lookup_name(&self.players, wallet);
        let found = find_entry(&self.leaderboard, wallet);
        let ghost before = self.leaderboard@;
        let ghost log_before = self.leaderboard_log@;
        match found {
            Some(i) => {
                let existing = Some(self.leaderboard[i].duplicate());
                let entry = completion_entry(&existing, wallet, name, tournament.start_time_micros,
                    completion_time_micros, penalty_count, move_count);
                self.leaderboard_log.push(entry.duplicate());
                self.leaderboard.set(i, entry);
                proof {
                    let after = self.leaderboard@;
                    assert forall|a: int, b: int| 0 <= a < b < after.len()
                        implies (#[trigger] after[a]).wallet != (#[trigger] after[b]).wallet by {
                        assert(after[a].wallet == before[a].wallet && after[b].wallet == before[b].wallet);
                    }
                    assert(self.leaderboard_log@ == log_before.push(after[i as int]));
                }
            },
            None => {
                let entry = completion_entry(&None, wallet, name, tournament.start_time_micros,
                    completion_time_micros, penalty_count, move_count);
                self.leaderboard_log.push(entry.duplicate());
                self.leaderboard.push(entry);
                proof {
                    let after = self.leaderboard@;
                    assert forall|a: int, b: int| 0 <= a < b < after.len()
                        implies (#[trigger] after[a]).wallet != (#[trigger] after[b]).wallet by {
                        if b == before.len() {
                            assert(before[a].wallet != wallet);
                        } else {
                            assert(after[a] == before[a] && after[b] == before[b]);
                        }
                    }
                    assert(self.leaderboard_log@ == log_before.push(after[before.len() as int]));
                }
            },
        }
        let mut t = tournament;
        t.total_completions = t.total_completions.saturating_add(1);
        self.active_tournament = Some(t);
        let entries = self.get_sorted_leaderboard(DEFAULT_LEADERBOARD_LIMIT);
        let mut out: Vec<Outgoing> = Vec::new();
        out.push(Outgoing::Emit(ArenaEvent::LeaderboardUpdated { entries }));
        out
    }

    /// The hub answers a pull with its top `limit` rows and the current
    /// tournament's id and state (0 and inactive with none).
    pub fn handle_leaderboard_request(&self, requester_chain: u64, limit: u32) -> (out: Vec<Outgoing>)
        requires
            self.wf(),
        ensures
            leaderboard_request_effect(*self, requester_chain, limit, out),
    {
        let entries = self.get_sorted_leaderboard(limit);
        let (tournament_id, is_active) = match self.active_tournament {
            Some(t) => (t.id, t.active),
            None => (0, false),
        };
        let mut out: Vec<Outgoing> = Vec::new();
        out.push(Outgoing::Send {
            to: requester_chain,
            message: Message::LeaderboardResponse { entries, tournament_id, is_active },
        });
        out
    }

    /// A participant node installs the hub's answer as its cached snapshot.
    pub fn handle_leaderboard_response(
        &mut self,
        env: &Env,
        entries: Vec<LeaderboardEntry>,
        tournament_id: u64,
        is_active: bool,
    )
        requires
            old(self).wf(),
        ensures
            final(self).wf(),
            leaderboard_response_effect(*old(self), *final(self), *env, entries, tournament_id, is_active),
    {
        self.cached_leaderboard = Some(CachedLeaderboard {
            entries,
            tournament_id,
            is_active,
            fetched_at_micros: env.now_micros,
        });
    }

    /// A participant node adopts a started tournament: it regenerates the
    /// puzzle from the seed, drops every game and clears its cached snapshot.
    pub fn handle_tournament_started_msg(
        &mut self,
        tournament_id: u64,
        seed: u64,
        start_time_micros: u64,
        end_time_micros: u64,
    )
        requires
            old(self).wf(),
        ensures
            final(self).wf(),
            tournament_started_msg_effect(*old(self), *final(self), tournament_id, seed, start_time_micros, end_time_micros),
    {
        self.active_tournament = Some(Tournament {
            id: tournament_id, seed, start_time_micros, end_time_micros, active: true,
            total_players: 0, total_completions: 0,
        });
        self.current_puzzle = generate_puzzle(seed);
        self.player_games = Vec::new();
        self.cached_leaderboard = None;
    }

    /// A participant node learns that a tournament ended: its copy is marked
    /// inactive if it is that tournament, and the final ranking becomes the
    /// cached snapshot.
    pub fn handle_tournament_ended_msg(&mut self, env: &Env, tournament_id: u64, final_rankings: Vec<LeaderboardEntry>)
        requires
            old(self).wf(),
        ensures
            final(self).wf(),
            tournament_ended_msg_effect(*old(self), *final(self), *env, tournament_id, final_rankings),
    {
        if let Some(t) = self.active_tournament {
            if t.id == tournament_id {
                let mut ended = t;
                ended.active = false;
                self.active_tournament = Some(ended);
            }
        }
        self.cached_leaderboard = Some(CachedLeaderboard {
            entries: final_rankings,
            tournament_id,
            is_active: false,
            fetched_at_micros: env.now_micros,
        });
    }

    /// A participant node installs a published leaderboard as its cached
    /// snapshot, tagged with its own copy of the tournament (0 and inactive
    /// with none).
    pub fn handle_leaderboard_updated(&mut self, env: &Env, entries: Vec<LeaderboardEntry>)
        requires
            old(self).wf(),
        ensures
            final(self).wf(),
            leaderboard_updated_effect(*old(self), *final(self), *env, entries),
    {
        let (tournament_id, is_active) = match self.active_tournament {
            Some(t) => (t.id, t.active),
            None => (0, false),
        };
        self.cached_leaderboard = Some(CachedLeaderboard {
            entries,
            tournament_id,
            is_active,
            fetched_at_micros: env.now_micros,
        });
    }

    /// Runs one caller operation through its handler.
    pub fn execute_operation(&mut self, env: &Env, operation: Operation) -> (res: (ArenaResponse, Vec<Outgoing>))
        requires
            old(self).wf(),
        ensures
            final(self).wf(),
            operation matches Operation::RegisterPlayer { discord_username }
                ==> register_player_effect(*old(self), *final(self), *env, discord_username, res),
            operation matches Operation::UpdateUsername { new_discord_username }
                ==> update_username_effect(*old(self), *final(self), *env, new_discord_username, res),
            operation matches Operation::PlaceCell { row, col, value }
                ==> place_cell_effect(*old(self), *final(self), *env, row, col, value, res),
            operation matches Operation::ClearCell { row, col }
                ==> clear_cell_effect(*old(self), *final(self), *env, row, col, res),
            operation is SubscribeToHub
                ==> *final(self) == *old(self) && subscribe_to_hub_effect(*old(self), *env, res),
            operation matches Operation::RequestLeaderboard { limit }
                ==> *final(self) == *old(self) && request_leaderboard_effect(*old(self), *env, limit, res),
            operation matches Operation::StartTournament { seed, duration_secs }
                ==> start_tournament_effect(*old(self), *final(self), *env, seed, duration_secs, res),
            operation is EndTournament ==> end_tournament_effect(*old(self), *final(self), *env, res),
    {
        match operation {
            Operation::RegisterPlayer { discord_username } => self.handle_register_player(env, discord_username),
            Operation::UpdateUsername { new_discord_username } => self.handle_update_username(env, new_discord_username),
            Operation::PlaceCell { row, col, value } => self.handle_place_cell(env, row, col, value),
            Operation::ClearCell { row, col } => self.handle_clear_cell(env, row, col),
            Operation::SubscribeToHub => self.handle_subscribe_to_hub(env),
            Operation::RequestLeaderboard { limit } => self.handle_request_leaderboard(env, limit),
            Operation::StartTournament { seed, duration_secs } => self.handle_start_tournament(env, seed, duration_secs),
            Operation::EndTournament => self.handle_end_tournament(env),
        }
    }

    /// Runs one incoming message through its handler; returns what must be
    /// sent or published in turn.
    pub fn execute_message(&mut self, env: &Env, message: Message) -> (out: Vec<Outgoing>)
        requires
            old(self).wf(),
        ensures
            final(self).wf(),
            message matches Message::SyncPlayer(player_info)
                ==> sync_player_effect(*old(self), *final(self), player_info) && out@.len() == 0,
            message matches Message::SyncCellPlacement { wallet, row, col, value, timestamp_micros, penalty_count }
                ==> sync_cell_placement_effect(*old(self), *final(self), wallet, row, col, value,
                    timestamp_micros, penalty_count) && out@.len() == 0,
            message matches Message::SyncBoardComplete { wallet, completion_time_micros, penalty_count, move_count }
                ==> sync_board_complete_effect(*old(self), *final(self), wallet, completion_time_micros,
                    penalty_count, move_count, out),
            message matches Message::LeaderboardRequest { requester_chain, limit }
                ==> *final(self) == *old(self) && leaderboard_request_effect(*old(self), requester_chain, limit, out),
            message matches Message::LeaderboardResponse { entries, tournament_id, is_active }
                ==> leaderboard_response_effect(*old(self), *final(self), *env, entries, tournament_id, is_active)
                    && out@.len() == 0,
            message matches Message::TournamentStarted { tournament_id, seed, start_time_micros, end_time_micros }
                ==> tournament_started_msg_effect(*old(self), *final(self), tournament_id, seed,
                    start_time_micros, end_time_micros) && out@.len() == 0,
            message matches Message::TournamentEnded { tournament_id, final_rankings }
                ==> tournament_ended_msg_effect(*old(self), *final(self), *env, tournament_id, final_rankings)
                    && out@.len() == 0,
    {
        match message {
            Message::SyncPlayer(player_info) => {
                self.handle_sync_player(player_info);
                Vec::new()
            },
            Message::SyncCellPlacement { wallet, row, col, value, timestamp_micros, penalty_count } => {
                self.handle_sync_cell_placement(wallet, row, col, value, timestamp_micros, penalty_count);
                Vec::new()
            },
            Message::SyncBoardComplete { wallet, completion_time_micros, penalty_count, move_count } => {
                self.handle_sync_board_complete(wallet, completion_time_micros, penalty_count, move_count)
            },
            Message::LeaderboardRequest { requester_chain, limit } => {
                self.handle_leaderboard_request(requester_chain, limit)
            },
            Message::LeaderboardResponse { entries, tournament_id, is_active } => {
                self.handle_leaderboard_response(env, entries, tournament_id, is_active);
                Vec::new()
            },
            Message::TournamentStarted { tournament_id, seed, start_time_micros, end_time_micros } => {
                self.handle_tournament_started_msg(tournament_id, seed, start_time_micros, end_time_micros);
                Vec::new()
            },
            Message::TournamentEnded { tournament_id, final_rankings } => {
                self.handle_tournament_ended_msg(env, tournament_id, final_rankings);
                Vec::new()
            },
        }
    }

    /// Applies one event read from the hub's tournament stream. Registration
    /// events need nothing.
    pub fn process_event(&mut self, env: &Env, event: ArenaEvent)
        requires
            old(self).wf(),
        ensures
            final(self).wf(),
            event matches ArenaEvent::TournamentStarted { tournament_id, seed, start_time_micros, end_time_micros }
                ==> tournament_started_msg_effect(*old(self), *final(self), tournament_id, seed,
                    start_time_micros, end_time_micros),
            event matches ArenaEvent::TournamentEnded { tournament_id, final_rankings }
                ==> tournament_ended_msg_effect(*old(self), *final(self), *env, tournament_id, final_rankings),
            event matches ArenaEvent::LeaderboardUpdated { entries }
                ==> leaderboard_updated_effect(*old(self), *final(self), *env, entries),
            event is PlayerRegistered ==> *final(self) == *old(self),
    {
        match event {
            ArenaEvent::TournamentStarted { tournament_id, seed, start_time_micros, end_time_micros } => {
                self.handle_tournament_started_msg(tournament_id, seed, start_time_micros, end_time_micros);
            },
            ArenaEvent::TournamentEnded { tournament_id, final_rankings } => {
                self.handle_tournament_ended_msg(env, tournament_id, final_rankings);
            },
            ArenaEvent::LeaderboardUpdated { entries } => {
                self.handle_leaderboard_updated(env, entries);
            },
            ArenaEvent::PlayerRegistered { .. } => {},
        }
    }

    /// Blanks `(row, col)` on the signer's board (see `clear_cell_refused` for
    /// when it is refused, with nothing changed). Penalties and moves stay.
    pub fn handle_clear_cell(&mut self, env: &Env, row: u8, col: u8) -> (res: (ArenaResponse, Vec<Outgoing>))
        requires
            old(self).wf(),
        ensures
            final(self).wf(),
            clear_cell_effect(*old(self), *final(self), *env, row, col, res),
    {
        let wallet = match env.signer {
            Some(w) => w,
            None => return (error_response("Operation must be authenticated"), Vec::new()),
        };
        let now = env.now_micros;
        if find_player(&self.players, wallet).is_none() {
            return (error_response("Player not registered"), Vec::new());
        }
        let tournament = match self.get_active_tournament() {
            Some(t) => t,
            None => return (error_response("No active tournament"), Vec::new()),
        };
        if now < tournament.start_time_micros || now > tournament.end_time_micros {
            return (error_response("Tournament time window has expired"), Vec::new());
        }
        if row > 8 || col > 8 {
            return (error_response("Invalid cell coordinates"), Vec::new());
        }
        let r = row as usize;
        let c = col as usize;
        let i = match find_game(&self.player_games, wallet) {
            Some(i) => i,
            None => return (error_response("No game in progress"), Vec::new()),
        };
        proof {
            lemma_game_at_index(self.player_games@, wallet, i as int);
        }
        let g = &self.player_games[i].1;
        if g.completed {
            return (error_response("Board already completed"), Vec::new());
        }
        assert(g.given_mask@[r as int]@.len() == 9);
        assert(g.given(r as int, c as int) == g.given_mask@[r as int]@[c as int]);
        if g.given_mask[r][c] {
            return (error_response("Cannot clear a given cell"), Vec::new());
        }
        let ghost old_games = self.player_games@;
        self.player_games[i].1.clear_value(r, c);
        proof {
            assert(self.player_games@ =~= old_games.update(i as int, (wallet, self.player_games@[i as int].1)));
            lemma_replace_game(old_games, i as int, self.player_games@[i as int].1);
        }
        (ArenaResponse::CellCleared(CellClearedResponse { row, col }), Vec::new())
    }

    /// Registers the signer under `discord_username` (1 to 32 bytes) at `now`
    /// and tells the hub. Refused, with nothing changed, for a bad name, no
    /// signer, or a signer already registered.
    pub fn handle_register_player(&mut self, env: &Env, discord_username: String) -> (res: (ArenaResponse, Vec<Outgoing>))
        requires
            old(self).wf(),
        ensures
            final(self).wf(),
            register_player_effect(*old(self), *final(self), *env, discord_username, res),
    {
        if !username_ok(&discord_username) {
            return (error_response("Discord username must be 1-32 characters"), Vec::new());
        }
        let wallet = match env.signer {
            Some(w) => w,
            None => return (error_response("Operation must be authenticated"), Vec::new()),
        };
        if find_player(&self.players, wallet).is_some() {
            return (error_response("Player already registered. Use UpdateUsername to change."), Vec::new());
        }
        self.players.push(PlayerInfo {
            wallet,
            discord_username: discord_username.clone(),
            registered_at_micros: env.now_micros,
        });
        let mut out: Vec<Outgoing> = Vec::new();
        push_to_hub(env, Message::SyncPlayer(PlayerInfo {
            wallet,
            discord_username: discord_username.clone(),
            registered_at_micros: env.now_micros,
        }), &mut out);
        assert(out@ =~= to_hub(*env, Message::SyncPlayer(PlayerInfo {
            wallet,
            discord_username,
            registered_at_micros: env.now_micros,
        })));
        (ArenaResponse::PlayerRegistered(PlayerRegisteredResponse { wallet, discord_username }), out)
    }

    /// Renames the signer's registration and tells the hub. Refused, with
    /// nothing changed, for a bad name, no signer, or an unregistered signer.
    pub fn handle_update_username(&mut self, env: &Env, new_discord_username: String) -> (res: (ArenaResponse, Vec<Outgoing>))
        requires
            old(self).wf(),
        ensures
            final(self).wf(),
            update_username_effect(*old(self), *final(self), *env, new_discord_username, res),
    {
        if !username_ok(&new_discord_username) {
            return (error_response("Discord username must be 1-32 characters"), Vec::new());
        }
        let wallet = match env.signer {
            Some(w) => w,
            None => return (error_response("Operation must be authenticated"), Vec::new()),
        };
        let i = match find_player(&self.players, wallet) {
            Some(i) => i,
            None => return (error_response("Player not registered. Register first."), Vec::new()),
        };
        let registered_at_micros = self.players[i].registered_at_micros;
        let ghost old_players = self.players@;
        self.players.set(i, PlayerInfo {
            wallet,
            discord_username: new_discord_username.clone(),
            registered_at_micros,
        });
        let mut out: Vec<Outgoing> = Vec::new();
        push_to_hub(env, Message::SyncPlayer(PlayerInfo {
            wallet,
            discord_username: new_discord_username.clone(),
            registered_at_micros,
        }), &mut out);
        assert(out@ =~= to_hub(*env, Message::SyncPlayer(PlayerInfo {
            wallet,
            discord_username: new_discord_username,
            registered_at_micros,
        })));
        assert(self.players@ == old_players.update(i as int, PlayerInfo {
            wallet,
            discord_username: new_discord_username,
            registered_at_micros,
        }));
        (ArenaResponse::UsernameUpdated(UsernameUpdatedResponse { wallet, new_discord_username }), out)
    }

    /// Subscribes this node to the hub's tournament stream.
    pub fn handle_subscribe_to_hub(&self, env: &Env) -> (res: (ArenaResponse, Vec<Outgoing>))
        ensures
            subscribe_to_hub_effect(*self, *env, res),
    {
        let mut out: Vec<Outgoing> = Vec::new();
        out.push(Outgoing::Subscribe { hub: env.hub_chain_id });
        assert(out@ =~= seq![Outgoing::Subscribe { hub: env.hub_chain_id }]);
        (ArenaResponse::Subscribed(SubscribedResponse { hub_chain_id: env.hub_chain_id }), out)
    }

    /// Asks the hub for its ranked leaderboard: `limit` rows (50 if none is
    /// given), at most 200. The answer arrives later as a message.
    pub fn handle_request_leaderboard(&self, env: &Env, limit: Option<u32>) -> (res: (ArenaResponse, Vec<Outgoing>))
        ensures
            request_leaderboard_effect(*self, *env, limit, res),
    {
        let wanted = match limit {
            Some(l) => l,
            None => DEFAULT_LEADERBOARD_LIMIT,
        };
        let limit = if wanted < MAX_LEADERBOARD_LIMIT { wanted } else { MAX_LEADERBOARD_LIMIT };
        let mut out: Vec<Outgoing> = Vec::new();
        out.push(Outgoing::Send {
            to: env.hub_chain_id,
            message: Message::LeaderboardRequest { requester_chain: env.chain_id, limit },
        });
        assert(out@ =~= seq![Outgoing::Send {
            to: env.hub_chain_id,
            message: Message::LeaderboardRequest { requester_chain: env.chain_id, limit },
        }]);
        let message = "Leaderboard request sent to Hub. Query cachedLeaderboard shortly.".to_string();
        (ArenaResponse::LeaderboardRequested(LeaderboardRequestedResponse { message }), out)
    }

    /// Places `value` at `(row, col)` for the signer (see `place_cell_refused`
    /// for when it is refused, with nothing changed). The signer's game is
    /// created on its first move, bound to the current puzzle and started at
    /// the tournament's start. The move is written whether or not it is valid; an invalid one
    /// costs a penalty. A completed board is scored from the tournament start.
    /// The hub hears of the completion, then of the move.
    pub fn handle_place_cell(&mut self, env: &Env, row: u8, col: u8, value: u8) -> (res: (ArenaResponse, Vec<Outgoing>))
        requires
            old(self).wf(),
        ensures
            final(self).wf(),
            place_cell_effect(*old(self), *final(self), *env, row, col, value, res),
    {
        let wallet = match env.signer {
            Some(w) => w,
            None => return (error_response("Operation must be authenticated"), Vec::new()),
        };
        let now = env.now_micros;
        if find_player(&self.players, wallet).is_none() {
            return (error_response("Player not registered"), Vec::new());
        }
        let tournament = match self.get_active_tournament() {
            Some(t) => t,
            None => return (error_response("No active tournament"), Vec::new()),
        };
        if now < tournament.start_time_micros || now > tournament.end_time_micros {
            return (error_response("Tournament time window has expired"), Vec::new());
        }
        if row > 8 || col > 8 || value < 1 || value > 9 {
            return (error_response("Invalid cell coordinates or value"), Vec::new());
        }
        let r = row as usize;
        let c = col as usize;
        let puzzle = match &self.current_puzzle {
            Some(b) => b,
            None => return (error_response("Puzzle not loaded for this tournament"), Vec::new()),
        };
        let ghost old_self = *self;
        let found = find_game(&self.player_games, wallet);
        let (valid, game) = match found {
            Some(i) => {
                proof {
                    lemma_game_at_index(self.player_games@, wallet, i as int);
                }
                let g = &self.player_games[i].1;
                assert(g.wf());
                if g.completed {
                    return (error_response("Board already completed"), Vec::new());
                }
                assert(g.given_mask@[r as int]@.len() == 9);
                assert(g.given(r as int, c as int) == g.given_mask@[r as int]@[c as int]);
                if g.given_mask[r][c] {
                    return (error_response("Cannot modify a given cell"), Vec::new());
                }
                let solution = puzzle.solution;
                let start = tournament.start_time_micros;
                let valid = self.player_games[i].1.place_value(r, c, value, &solution, start, now);
                let ghost new_games = self.player_games@;
                proof {
                    assert(new_games =~= old_self.player_games@.update(i as int, (wallet, new_games[i as int].1)));
                    assert(unique_games(new_games));
                    lemma_game_at_index(new_games, wallet, i as int);
                    assert forall|w2: u64| w2 != wallet implies (#[trigger] has_game(new_games, w2)
                        == has_game(old_self.player_games@, w2)
                        && (has_game(old_self.player_games@, w2) ==> game_at(new_games, w2) == game_at(old_self.player_games@, w2))) by {
                        if has_game(new_games, w2) {
                            let j = choose|j: int| 0 <= j < new_games.len() && (#[trigger] new_games[j]).0 == w2;
                            lemma_game_at_index(new_games, w2, j);
                            lemma_game_at_index(old_self.player_games@, w2, j);
                        }
                        if has_game(old_self.player_games@, w2) {
                            let j = choose|j: int| 0 <= j < old_self.player_games@.len() && (#[trigger] old_self.player_games@[j]).0 == w2;
                            assert(new_games[j].0 == w2);
                        }
                    }
                }
                proof {
                    assert forall|w2: u64| w2 != wallet && has_game(old_self.player_games@, w2)
                        implies #[trigger] game_at(new_games, w2) == game_at(old_self.player_games@, w2) by {
                        assert(has_game(new_games, w2) == has_game(old_self.player_games@, w2));
                    }
                    let p = grid_view(puzzle.puzzle);
                    assert(old_self.player_games@[i as int].1.bound_to(p));
                    assert forall|k: int| 0 <= k < new_games.len() && self.current_puzzle is Some
                        implies (#[trigger] new_games[k]).1.bound_to(grid_view(self.current_puzzle->Some_0.puzzle)) by {
                        if k != i {
                            assert(new_games[k] == old_self.player_games@[k]);
                        }
                    }
                }
                let gs = &self.player_games[i].1;
                (valid, (gs.penalty_count, gs.move_count, gs.completed, gs.score))
            },
            None => {
                let mut g = PlayerGameState::new(&puzzle.puzzle);
                assert(g.given(r as int, c as int) == (grid_view(puzzle.puzzle)[r as int][c as int] != 0));
                let ghost fresh = g;
                g.start_time_micros = tournament.start_time_micros;
                assert(g.cells() == fresh.cells());
                assert(forall|r2: int, c2: int| #[trigger] g.given(r2, c2) == fresh.given(r2, c2));
                assert(g.given_mask@[r as int]@.len() == 9);
                assert(g.given(r as int, c as int) == g.given_mask@[r as int]@[c as int]);
                assert(!has_game(self.player_games@, wallet));
                if g.given_mask[r][c] {
                    return (error_response("Cannot modify a given cell"), Vec::new());
                }
                assert(g.bound_to(grid_view(puzzle.puzzle)));
                let solution = puzzle.solution;
                let valid = g.place_value(r, c, value, &solution, tournament.start_time_micros, now);
                let summary = (g.penalty_count, g.move_count, g.completed, g.score);
                let ghost before = self.player_games@;
                self.player_games.push((wallet, g));
                proof {
                    let games = self.player_games@;
                    let n = before.len() as int;
                    assert(unique_games(games)) by {
                        assert forall|a: int, b: int| 0 <= a < b < games.len() implies (#[trigger] games[a]).0 != (#[trigger] games[b]).0 by {
                            if b == n {
                                assert(before[a].0 != wallet);
                            } else {
                                assert(before[a] == games[a] && before[b] == games[b]);
                            }
                        }
                    }
                    lemma_game_at_index(games, wallet, n);
                    assert forall|w2: u64| w2 != wallet implies (#[trigger] has_game(games, w2)
                        == has_game(before, w2) && (has_game(before, w2) ==> game_at(games, w2) == game_at(before, w2))) by {
                        if has_game(games, w2) {
                            let j = choose|j: int| 0 <= j < games.len() && (#[trigger] games[j]).0 == w2;
                            lemma_game_at_index(games, w2, j);
                            assert(j < n);
                            lemma_game_at_index(before, w2, j);
                        }
                        if has_game(before, w2) {
                            let j = choose|j: int| 0 <= j < before.len() && (#[trigger] before[j]).0 == w2;
                            assert(games[j].0 == w2);
                        }
                    }
                }
                proof {
                    assert forall|w2: u64| w2 != wallet && has_game(before, w2)
                        implies #[trigger] game_at(self.player_games@, w2) == game_at(before, w2) by {
                        assert(has_game(self.player_games@, w2) == has_game(before, w2));
                    }
                    let games = self.player_games@;
                    assert forall|k: int| 0 <= k < games.len() && self.current_puzzle is Some
                        implies (#[trigger] games[k]).1.bound_to(grid_view(self.current_puzzle->Some_0.puzzle)) by {
                        if k < before.len() {
                            assert(games[k] == before[k]);
                        }
                    }
                    assert forall|k: int| 0 <= k < games.len() implies (#[trigger] games[k]).1.wf() by {
                        if k < before.len() {
                            assert(games[k] == before[k]);
                        }
                    }
                }
                (valid, summary)
            },
        };
        proof {
            let b = old_self.current_puzzle->Some_0;
            let p = old_self.prior_cells(wallet, b);
            lemma_grid_view_9x9(b.puzzle);
            if has_game(old_self.player_games@, wallet) {
                let j = choose|j: int| 0 <= j < old_self.player_games@.len()
                    && (#[trigger] old_self.player_games@[j]).0 == wallet;
                lemma_game_at_index(old_self.player_games@, wallet, j);
            }
            if !valid {
                lemma_invalid_placement_never_completes(p, r as int, c as int, value, grid_view(b.solution));
            }
        }
        let (penalty_count, move_count, completed, score) = game;
        let mut out: Vec<Outgoing> = Vec::new();
        if completed {
            push_to_hub(env, Message::SyncBoardComplete {
                wallet,
                completion_time_micros: now,
                penalty_count,
                move_count,
            }, &mut out);
        }
        push_to_hub(env, Message::SyncCellPlacement {
            wallet, row, col, value, timestamp_micros: now, penalty_count,
        }, &mut out);
        proof {
            if !completed {
                assert(out@ =~= Seq::<Outgoing>::empty() + to_hub(*env, Message::SyncCellPlacement {
                    wallet, row, col, value, timestamp_micros: now, penalty_count,
                }));
            }
        }
        let response = if completed {
            ArenaResponse::BoardCompleted(BoardCompletedResponse {
                completion_time_micros: now,
                penalty_count,
                score,
            })
        } else {
            ArenaResponse::CellPlaced(CellPlacedResponse {
                row, col, value, valid, penalty_count, board_complete: false,
            })
        };
        (response, out)
    }
}

/// What `ArenaState::handle_start_tournament` does, from state `pre` to state `post`.
pub open spec fn start_tournament_effect(
    pre: ArenaState,
    post: ArenaState,
    env: Env,
    seed: u64,
    duration_secs: u64,
    res: (ArenaResponse, Vec<Outgoing>),
) -> bool {
    &&& res.0 is Error <==> (!pre.is_admin(env) || env.chain_id != env.hub_chain_id
        || active_spec(pre.active_tournament) is Some || pre.tournament_counter == u64::MAX)
    &&& res.0 is Error ==> post == pre && res.1@.len() == 0
    &&& !(res.0 is Error) ==> ({
        let id = (pre.tournament_counter + 1) as u64;
        let start = env.now_micros;
        let end = window_end(env.now_micros, duration_secs);
        let started = ArenaEvent::TournamentStarted {
            tournament_id: id, seed, start_time_micros: start, end_time_micros: end,
        };
        &&& post.tournament_counter == id
        &&& post.active_tournament == Some(Tournament {
                id, seed, start_time_micros: start, end_time_micros: end, active: true,
                total_players: 0, total_completions: 0,
            })
        &&& post.current_puzzle matches Some(b) && well_formed_board(b) && generated_by(b, seed)
        &&& post.leaderboard@.len() == 0
        &&& post.event_log@ == pre.event_log@.push(started)
        &&& post.event_counter == if pre.event_counter == u64::MAX { u64::MAX } else { (pre.event_counter + 1) as u64 }
        &&& post.players == pre.players
        &&& post.player_games@.len() == 0
        &&& post.past_tournaments == pre.past_tournaments
        &&& res.0 == ArenaResponse::TournamentStarted(TournamentStartedResponse {
                tournament_id: id, seed, start_time_micros: start, end_time_micros: end,
            })
        &&& res.1@ == seq![Outgoing::Emit(started)]
    })
    &&& !(res.0 is Error) ==> post == ArenaState { tournament_counter: post.tournament_counter, current_puzzle: post.current_puzzle, active_tournament: post.active_tournament, leaderboard: post.leaderboard, player_games: post.player_games, event_log: post.event_log, event_counter: post.event_counter, ..pre }
}

/// What `ArenaState::handle_end_tournament` does, from state `pre` to state `post`.
pub open spec fn end_tournament_effect(
    pre: ArenaState,
    post: ArenaState,
    env: Env,
    res: (ArenaResponse, Vec<Outgoing>),
) -> bool {
    &&& res.0 is Error <==> (!pre.is_admin(env) || env.chain_id != env.hub_chain_id
        || active_spec(pre.active_tournament) is None)
    &&& res.0 is Error ==> post == pre && res.1@.len() == 0
    &&& !(res.0 is Error) ==> exists|rankings: Seq<LeaderboardEntry>| {
        let t = pre.active_tournament->Some_0;
        let ended = Tournament { active: false, ..t };
        &&& #[trigger] top_of(rankings, pre.leaderboard@, MAX_LEADERBOARD_LIMIT)
        &&& post.active_tournament == Some(ended)
        &&& post.past_tournaments@ == pre.past_tournaments@.push(ended)
        &&& post.event_log@.len() == pre.event_log@.len() + 1
        &&& post.event_log@.last() matches ArenaEvent::TournamentEnded { tournament_id, final_rankings }
            && tournament_id == t.id && final_rankings@ == rankings
        &&& res.1@.len() == 1
        &&& res.1@[0] matches Outgoing::Emit(ArenaEvent::TournamentEnded { tournament_id, final_rankings })
            && tournament_id == t.id && final_rankings@ == rankings
        &&& res.0 == ArenaResponse::TournamentEnded(TournamentEndedResponse {
                tournament_id: t.id,
                total_players: t.total_players,
                total_completions: t.total_completions,
            })
    }
    &&& !(res.0 is Error) ==> {
        &&& post.event_log@.subrange(0, pre.event_log@.len() as int) == pre.event_log@
        &&& post.event_counter == if pre.event_counter == u64::MAX { u64::MAX } else { (pre.event_counter + 1) as u64 }
        &&& post.leaderboard == pre.leaderboard
        &&& post.players == pre.players
        &&& post.player_games == pre.player_games
        &&& post.current_puzzle == pre.current_puzzle
        &&& post.tournament_counter == pre.tournament_counter
    }
    &&& !(res.0 is Error) ==> post == ArenaState { active_tournament: post.active_tournament, past_tournaments: post.past_tournaments, event_log: post.event_log, event_counter: post.event_counter, ..pre }
}

/// What `ArenaState::handle_sync_player` does, from state `pre` to state `post`.
pub open spec fn sync_player_effect(
    pre: ArenaState,
    post: ArenaState,
    player_info: PlayerInfo,
) -> bool {
    &&& !is_registered(pre.players@, player_info.wallet) ==> {
        &&& post.players@ == pre.players@.push(player_info)
        &&& post.player_count == inc_sat64(pre.player_count)
        &&& post.event_log@ == pre.event_log@.push(ArenaEvent::PlayerRegistered {
                wallet: player_info.wallet,
                discord_username: player_info.discord_username,
            })
        &&& post.event_counter == inc_sat64(pre.event_counter)
    }
    &&& is_registered(pre.players@, player_info.wallet) ==> {
        &&& exists|i: int| 0 <= i < pre.players@.len()
                && (#[trigger] pre.players@[i]).wallet == player_info.wallet
                && post.players@ == pre.players@.update(i, player_info)
        &&& post.player_count == pre.player_count
        &&& post.event_log == pre.event_log
        &&& post.event_counter == pre.event_counter
    }
    &&& post.leaderboard == pre.leaderboard
    &&& post.player_games == pre.player_games
    &&& post.active_tournament == pre.active_tournament
    &&& post == ArenaState { players: post.players, player_count: post.player_count, event_log: post.event_log, event_counter: post.event_counter, ..pre }
}

/// What `ArenaState::handle_sync_cell_placement` does, from state `pre` to state `post`.
pub open spec fn sync_cell_placement_effect(
    pre: ArenaState,
    post: ArenaState,
    wallet: u64,
    row: u8,
    col: u8,
    value: u8,
    timestamp_micros: u64,
    penalty_count: u32,
) -> bool {
    &&& active_spec(pre.active_tournament) is None ==> post == pre
    &&& active_spec(pre.active_tournament) matches Some(t) ==> {
        ||| (exists|i: int| 0 <= i < pre.leaderboard@.len()
                && (#[trigger] pre.leaderboard@[i]).wallet == wallet
                && {
                    ||| pre.leaderboard@[i].completed && post == pre
                    ||| !pre.leaderboard@[i].completed
                        && post.leaderboard@.len() == pre.leaderboard@.len()
                        && post.leaderboard@ == pre.leaderboard@.update(i, post.leaderboard@[i])
                        && is_progress_update(pre.leaderboard@[i], post.leaderboard@[i],
                            t.start_time_micros, timestamp_micros, penalty_count)
                        && post.active_tournament == pre.active_tournament
                })
        ||| ((forall|k: int| 0 <= k < pre.leaderboard@.len()
                ==> (#[trigger] pre.leaderboard@[k]).wallet != wallet)
            && post.leaderboard@.drop_last() == pre.leaderboard@
            && post.leaderboard@.len() == pre.leaderboard@.len() + 1
            && is_first_progress_row(post.leaderboard@.last(), wallet, name_of(pre.players@, wallet),
                t.start_time_micros, timestamp_micros, penalty_count)
            && post.active_tournament == Some(Tournament {
                total_players: inc_sat(t.total_players), ..t
            }))
    }
    &&& post.players == pre.players
    &&& post.player_games == pre.player_games
    &&& post.leaderboard_log == pre.leaderboard_log
    &&& post == ArenaState { leaderboard: post.leaderboard, active_tournament: post.active_tournament, ..pre }
}

/// What `ArenaState::handle_sync_board_complete` does, from state `pre` to state `post`.
pub open spec fn sync_board_complete_effect(
    pre: ArenaState,
    post: ArenaState,
    wallet: u64,
    completion_time_micros: u64,
    penalty_count: u32,
    move_count: u32,
    out: Vec<Outgoing>,
) -> bool {
    &&& pre.active_tournament is None ==> post == pre && out@.len() == 0
    &&& pre.active_tournament matches Some(t) ==> {
        let name = name_of(pre.players@, wallet);
        &&& exists|i: int| 0 <= i < post.leaderboard@.len() && {
                let e = #[trigger] post.leaderboard@[i];
                &&& post.leaderboard_log@ == pre.leaderboard_log@.push(e)
                &&& ((i < pre.leaderboard@.len() && pre.leaderboard@[i].wallet == wallet
                        && post.leaderboard@ == pre.leaderboard@.update(i, e)
                        && is_completion_row(e, Some(pre.leaderboard@[i]), wallet, name,
                            t.start_time_micros, completion_time_micros, penalty_count, move_count))
                    || (i == pre.leaderboard@.len()
                        && (forall|k: int| 0 <= k < pre.leaderboard@.len()
                            ==> (#[trigger] pre.leaderboard@[k]).wallet != wallet)
                        && post.leaderboard@ == pre.leaderboard@.push(e)
                        && is_completion_row(e, None, wallet, name,
                            t.start_time_micros, completion_time_micros, penalty_count, move_count)))
            }
        &&& post.active_tournament == Some(Tournament {
                total_completions: inc_sat(t.total_completions), ..t
            })
        &&& out@.len() == 1
        &&& out@[0] matches Outgoing::Emit(ArenaEvent::LeaderboardUpdated { entries })
            && top_of(entries@, post.leaderboard@, DEFAULT_LEADERBOARD_LIMIT)
    }
    &&& post.players == pre.players
    &&& post.player_games == pre.player_games
    &&& post == ArenaState { leaderboard: post.leaderboard, leaderboard_log: post.leaderboard_log, active_tournament: post.active_tournament, ..pre }
}

/// What `ArenaState::handle_leaderboard_request` does, from state `pre`.
pub open spec fn leaderboard_request_effect(
    pre: ArenaState,
    requester_chain: u64,
    limit: u32,
    out: Vec<Outgoing>,
) -> bool {
    &&& out@.len() == 1
    &&& out@[0] matches Outgoing::Send {
        to,
        message: Message::LeaderboardResponse { entries, tournament_id, is_active },
    } && to == requester_chain && top_of(entries@, pre.leaderboard@, limit)
        && tournament_id == (match pre.active_tournament { Some(t) => t.id, None => 0 })
        && is_active == (match pre.active_tournament { Some(t) => t.active, None => false })
}

/// What `ArenaState::handle_leaderboard_response` does, from state `pre` to state `post`.
pub open spec fn leaderboard_response_effect(
    pre: ArenaState,
    post: ArenaState,
    env: Env,
    entries: Vec<LeaderboardEntry>,
    tournament_id: u64,
    is_active: bool,
) -> bool {
    &&& post.cached_leaderboard matches Some(c) && c.entries@ == entries@
        && c.tournament_id == tournament_id && c.is_active == is_active
        && c.fetched_at_micros == env.now_micros
    &&& post.players == pre.players
    &&& post.player_games == pre.player_games
    &&& post.leaderboard == pre.leaderboard
    &&& post.active_tournament == pre.active_tournament
    &&& post == ArenaState { cached_leaderboard: post.cached_leaderboard, ..pre }
}

/// What `ArenaState::handle_tournament_started_msg` does, from state `pre` to state `post`.
pub open spec fn tournament_started_msg_effect(
    pre: ArenaState,
    post: ArenaState,
    tournament_id: u64,
    seed: u64,
    start_time_micros: u64,
    end_time_micros: u64,
) -> bool {
    &&& post.active_tournament == Some(Tournament {
        id: tournament_id, seed, start_time_micros, end_time_micros, active: true,
        total_players: 0, total_completions: 0,
    })
    &&& post.current_puzzle matches Some(b) && well_formed_board(b) && generated_by(b, seed)
    &&& post.player_games@.len() == 0
    &&& post.cached_leaderboard is None
    &&& post.players == pre.players
    &&& post.leaderboard == pre.leaderboard
    &&& post == ArenaState { active_tournament: post.active_tournament, current_puzzle: post.current_puzzle, player_games: post.player_games, cached_leaderboard: post.cached_leaderboard, ..pre }
}

/// What `ArenaState::handle_tournament_ended_msg` does, from state `pre` to state `post`.
pub open spec fn tournament_ended_msg_effect(
    pre: ArenaState,
    post: ArenaState,
    env: Env,
    tournament_id: u64,
    final_rankings: Vec<LeaderboardEntry>,
) -> bool {
    &&& post.active_tournament == match pre.active_tournament {
        Some(t) => if t.id == tournament_id { Some(Tournament { active: false, ..t }) } else { Some(t) },
        None => None,
    }
    &&& post.cached_leaderboard matches Some(c) && c.entries@ == final_rankings@
        && c.tournament_id == tournament_id && !c.is_active && c.fetched_at_micros == env.now_micros
    &&& post.players == pre.players
    &&& post.player_games == pre.player_games
    &&& post.leaderboard == pre.leaderboard
    &&& post == ArenaState { active_tournament: post.active_tournament, cached_leaderboard: post.cached_leaderboard, ..pre }
}

/// What `ArenaState::handle_leaderboard_updated` does, from state `pre` to state `post`.
pub open spec fn leaderboard_updated_effect(
    pre: ArenaState,
    post: ArenaState,
    env: Env,
    entries: Vec<LeaderboardEntry>,
) -> bool {
    &&& post.cached_leaderboard matches Some(c) && c.entries@ == entries@
        && c.tournament_id == (match pre.active_tournament { Some(t) => t.id, None => 0 })
        && c.is_active == (match pre.active_tournament { Some(t) => t.active, None => false })
        && c.fetched_at_micros == env.now_micros
    &&& post.players == pre.players
    &&& post.player_games == pre.player_games
    &&& post.leaderboard == pre.leaderboard
    &&& post.active_tournament == pre.active_tournament
    &&& post == ArenaState { cached_leaderboard: post.cached_leaderboard, ..pre }
}

/// What `ArenaState::handle_clear_cell` does, from state `pre` to state `post`.
pub open spec fn clear_cell_effect(
    pre: ArenaState,
    post: ArenaState,
    env: Env,
    row: u8,
    col: u8,
    res: (ArenaResponse, Vec<Outgoing>),
) -> bool {
    &&& res.0 is Error <==> pre.clear_cell_refused(env, row, col)
    &&& res.0 is Error ==> post == pre
    &&& res.1@.len() == 0
    &&& !(res.0 is Error) ==> ({
        let w = env.signer->Some_0;
        let g0 = game_at(pre.player_games@, w);
        let g = game_at(post.player_games@, w);
        &&& has_game(post.player_games@, w)
        &&& g.cells() == set_cell(g0.cells(), row as int, col as int, 0)
        &&& g.given_mask == g0.given_mask
        &&& g.penalty_count == g0.penalty_count
        &&& g.move_count == g0.move_count
        &&& g.completed == g0.completed
        &&& g.score == g0.score
        &&& forall|w2: u64| #[trigger] has_game(post.player_games@, w2) == has_game(pre.player_games@, w2)
        &&& forall|w2: u64| w2 != w && has_game(pre.player_games@, w2)
            ==> #[trigger] game_at(post.player_games@, w2) == game_at(pre.player_games@, w2)
        &&& post.players == pre.players
        &&& post.active_tournament == pre.active_tournament
        &&& post.current_puzzle == pre.current_puzzle
        &&& post.leaderboard == pre.leaderboard
        &&& res.0 == ArenaResponse::CellCleared(CellClearedResponse { row, col })
    })
    &&& !(res.0 is Error) ==> post == ArenaState { player_games: post.player_games, ..pre }
}

/// What `ArenaState::handle_register_player` does, from state `pre` to state `post`.
pub open spec fn register_player_effect(
    pre: ArenaState,
    post: ArenaState,
    env: Env,
    discord_username: String,
    res: (ArenaResponse, Vec<Outgoing>),
) -> bool {
    &&& res.0 is Error <==> (!valid_username(discord_username@) || env.signer is None
        || is_registered(pre.players@, env.signer->Some_0))
    &&& res.0 is Error ==> post == pre && res.1@.len() == 0
    &&& !(res.0 is Error) ==> ({
        let info = PlayerInfo {
            wallet: env.signer->Some_0,
            discord_username,
            registered_at_micros: env.now_micros,
        };
        &&& post.players@ == pre.players@.push(info)
        &&& post.player_games == pre.player_games
        &&& post.leaderboard == pre.leaderboard
        &&& post.active_tournament == pre.active_tournament
        &&& res.0 == ArenaResponse::PlayerRegistered(PlayerRegisteredResponse {
            wallet: env.signer->Some_0,
            discord_username,
        })
        &&& res.1@ == to_hub(env, Message::SyncPlayer(info))
    })
    &&& !(res.0 is Error) ==> post == ArenaState { players: post.players, ..pre }
}

/// What `ArenaState::handle_update_username` does, from state `pre` to state `post`.
pub open spec fn update_username_effect(
    pre: ArenaState,
    post: ArenaState,
    env: Env,
    new_discord_username: String,
    res: (ArenaResponse, Vec<Outgoing>),
) -> bool {
    &&& res.0 is Error <==> (!valid_username(new_discord_username@) || env.signer is None
        || !is_registered(pre.players@, env.signer->Some_0))
    &&& res.0 is Error ==> post == pre && res.1@.len() == 0
    &&& !(res.0 is Error) ==> exists|i: int| {
        let w = env.signer->Some_0;
        let info = PlayerInfo {
            wallet: w,
            discord_username: new_discord_username,
            registered_at_micros: pre.players@[i].registered_at_micros,
        };
        &&& 0 <= i < pre.players@.len()
        &&& (#[trigger] pre.players@[i]).wallet == w
        &&& post.players@ == pre.players@.update(i, info)
        &&& res.1@ == to_hub(env, Message::SyncPlayer(info))
    }
    &&& !(res.0 is Error) ==> {
        &&& post.player_games == pre.player_games
        &&& post.leaderboard == pre.leaderboard
        &&& post.active_tournament == pre.active_tournament
        &&& res.0 == ArenaResponse::UsernameUpdated(UsernameUpdatedResponse {
            wallet: env.signer->Some_0,
            new_discord_username,
        })
    }
    &&& !(res.0 is Error) ==> post == ArenaState { players: post.players, ..pre }
}

/// What `ArenaState::handle_subscribe_to_hub` does, from state `pre`.
pub open spec fn subscribe_to_hub_effect(
    pre: ArenaState,
    env: Env,
    res: (ArenaResponse, Vec<Outgoing>),
) -> bool {
    &&& res.0 == ArenaResponse::Subscribed(SubscribedResponse { hub_chain_id: env.hub_chain_id })
    &&& res.1@ == seq![Outgoing::Subscribe { hub: env.hub_chain_id }]
}

/// What `ArenaState::handle_request_leaderboard` does, from state `pre`.
pub open spec fn request_leaderboard_effect(
    pre: ArenaState,
    env: Env,
    limit: Option<u32>,
    res: (ArenaResponse, Vec<Outgoing>),
) -> bool {
    &&& res.0 is LeaderboardRequested
    &&& res.1@ == seq![Outgoing::Send {
        to: env.hub_chain_id,
        message: Message::LeaderboardRequest {
            requester_chain: env.chain_id,
            limit: request_limit(limit),
        },
    }]
}

/// What `ArenaState::handle_place_cell` does, from state `pre` to state `post`.
pub open spec fn place_cell_effect(
    pre: ArenaState,
    post: ArenaState,
    env: Env,
    row: u8,
    col: u8,
    value: u8,
    res: (ArenaResponse, Vec<Outgoing>),
) -> bool {
    &&& res.0 is Error <==> pre.place_cell_refused(env, row, col, value)
    &&& res.0 is Error ==> post == pre && res.1@.len() == 0
    &&& !(res.0 is Error) ==> ({
        let w = env.signer->Some_0;
        let t = pre.active_tournament->Some_0;
        let puzzle = pre.current_puzzle->Some_0;
        let g = game_at(post.player_games@, w);
        let valid = placement_ok(pre.prior_cells(w, puzzle), row as int, col as int, value);
        &&& has_game(post.player_games@, w)
        &&& g.cells() == set_cell(pre.prior_cells(w, puzzle), row as int, col as int, value)
        &&& g.penalty_count == if valid { pre.prior_penalties(w) } else { inc_sat(pre.prior_penalties(w)) }
        &&& g.move_count == inc_sat(pre.prior_moves(w))
        &&& g.completed == matches_solution(g.cells(), grid_view(puzzle.solution))
        &&& !valid ==> !g.completed
        &&& has_game(pre.player_games@, w) ==> g.start_time_micros == game_at(pre.player_games@, w).start_time_micros
        &&& !g.completed ==> g.completion_time_micros == pre.prior_completion_time(w)
            && g.score == pre.prior_score(w)
        &&& g.completed ==> g.completion_time_micros == Some(env.now_micros)
            && g.score == live_score_spec(t.start_time_micros, env.now_micros, g.penalty_count)
        &&& !has_game(pre.player_games@, w) ==> g.start_time_micros == t.start_time_micros
        &&& forall|w2: u64| w2 != w ==> (#[trigger] has_game(post.player_games@, w2)
            == has_game(pre.player_games@, w2))
        &&& forall|w2: u64| w2 != w && has_game(pre.player_games@, w2)
            ==> #[trigger] game_at(post.player_games@, w2) == game_at(pre.player_games@, w2)
        &&& post.players == pre.players
        &&& post.active_tournament == pre.active_tournament
        &&& post.current_puzzle == pre.current_puzzle
        &&& post.leaderboard == pre.leaderboard
        &&& res.0 == if g.completed {
                ArenaResponse::BoardCompleted(BoardCompletedResponse {
                    completion_time_micros: env.now_micros,
                    penalty_count: g.penalty_count,
                    score: g.score,
                })
            } else {
                ArenaResponse::CellPlaced(CellPlacedResponse {
                    row, col, value, valid, penalty_count: g.penalty_count, board_complete: false,
                })
            }
        &&& res.1@ == (if g.completed {
                to_hub(env, Message::SyncBoardComplete {
                    wallet: w,
                    completion_time_micros: env.now_micros,
                    penalty_count: g.penalty_count,
                    move_count: g.move_count,
                })
            } else {
                Seq::empty()
            }) + to_hub(env, Message::SyncCellPlacement {
                wallet: w, row, col, value, timestamp_micros: env.now_micros, penalty_count: g.penalty_count,
            })
    })
    &&& !(res.0 is Error) ==> post == ArenaState { player_games: post.player_games, ..pre }
}

} // verus!
