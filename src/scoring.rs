//! Score formulas and the pace heuristic shared by participants and the hub.

use vstd::prelude::*;

verus! {

/// The score a board starts from.
pub const SCORE_CEILING: u64 = 10_000;

/// Points taken per second of play.
pub const POINTS_PER_SECOND: u64 = 2;

/// Points taken per invalid placement in live and completion scoring.
pub const POINTS_PER_PENALTY: u64 = 100;

/// Points taken per penalty when a game is replayed for verification.
pub const REPLAY_POINTS_PER_PENALTY: u64 = 200;

/// Below this many seconds per move on average, play is flagged.
pub const SUSPICIOUS_PACE_SECS: u64 = 6;

/// Moves needed before the pace heuristic applies.
pub const PACE_MIN_MOVES: u32 = 5;

pub const MICROS_PER_SECOND: u64 = 1_000_000;

/// Whole seconds from `start` to `end` (0 when `end` is earlier).
pub open spec fn elapsed_secs(start: u64, end: u64) -> int {
    if end >= start {
        (end - start) / MICROS_PER_SECOND as int
    } else {
        0
    }
}

/// `max(0, 10000 - 2 * secs - weight * penalties)`.
pub open spec fn score_spec(secs: int, penalties: int, weight: int) -> int {
    let s = SCORE_CEILING - POINTS_PER_SECOND * secs - weight * penalties;
    if s < 0 {
        0
    } else {
        s
    }
}

/// The live and completion score for play from `start` to `end`.
pub open spec fn live_score_spec(start: u64, end: u64, penalties: u32) -> int {
    score_spec(elapsed_secs(start, end), penalties as int, POINTS_PER_PENALTY as int)
}

/// The replay score: time is not counted.
pub open spec fn replay_score_spec(penalties: u32) -> int {
    score_spec(0, penalties as int, REPLAY_POINTS_PER_PENALTY as int)
}

/// Average whole seconds per move interval is under the threshold, for a
/// stretch of `moves` moves lasting from `first` to `last`.
pub open spec fn pace_suspicious(first: u64, last: u64, moves: u32) -> bool {
    moves >= PACE_MIN_MOVES && elapsed_secs(first, last) / (moves - 1) < SUSPICIOUS_PACE_SECS
}

fn saturating_mul_u64(a: u64, b: u64) -> (r: u64)
    ensures
        r == if a * b > u64::MAX { u64::MAX as int } else { a * b },
{
    match a.checked_mul(b) {
        Some(p) => p,
        None => u64::MAX,
    }
}

proof fn lemma_mul_nonneg(a: int, b: int)
    requires
        a >= 0,
        b >= 0,
    ensures
        a * b >= 0,
{
    assert(a * b >= 0) by (nonlinear_arith)
        requires a >= 0, b >= 0;
}

/// `max(0, 10000 - 2 * secs - weight * penalties)` without overflow.
fn bounded_score(secs: u64, penalties: u32, weight: u64) -> (r: u64)
    ensures
        r == score_spec(secs as int, penalties as int, weight as int),
{
    let time_penalty = saturating_mul_u64(secs, POINTS_PER_SECOND);
    let move_penalty = saturating_mul_u64(penalties as u64, weight);
    proof {
        lemma_mul_nonneg(penalties as int, weight as int);
        assert(penalties as int * weight as int == weight as int * penalties as int) by (nonlinear_arith);
    }
    let after_time = SCORE_CEILING.saturating_sub(time_penalty);
    assert(after_time == if 10000 - 2 * secs < 0 { 0 } else { 10000 - 2 * secs });
    after_time.saturating_sub(move_penalty)
}

/// The live and completion score: `max(0, 10000 - 2 * elapsed_secs - 100 * penalties)`.
pub fn live_score(start_micros: u64, end_micros: u64, penalty_count: u32) -> (r: u64)
    ensures
        r == live_score_spec(start_micros, end_micros, penalty_count),
{
    let secs = end_micros.saturating_sub(start_micros) / MICROS_PER_SECOND;
    bounded_score(secs, penalty_count, POINTS_PER_PENALTY)
}

/// The replay score: `max(0, 10000 - 200 * penalties)`.
pub fn replay_score(penalty_count: u32) -> (r: u64)
    ensures
        r == replay_score_spec(penalty_count),
{
    bounded_score(0, penalty_count, REPLAY_POINTS_PER_PENALTY)
}

/// The pace check: at least five moves, and under six seconds per interval on average.
pub fn is_suspicious_pace(first_micros: u64, last_micros: u64, move_count: u32) -> (r: bool)
    ensures
        r == pace_suspicious(first_micros, last_micros, move_count),
{
    if move_count < PACE_MIN_MOVES {
        return false;
    }
    let secs = last_micros.saturating_sub(first_micros) / MICROS_PER_SECOND;
    let intervals = (move_count - 1) as u64;
    secs / intervals < SUSPICIOUS_PACE_SECS
}

/// A score never goes below zero, and never rises as elapsed time or the
/// penalty count grows.
pub proof fn lemma_score_monotonic(secs1: int, secs2: int, pen1: int, pen2: int, weight: int)
    requires
        0 <= secs1 <= secs2,
        0 <= pen1 <= pen2,
        weight >= 0,
    ensures
        score_spec(secs2, pen2, weight) <= score_spec(secs1, pen1, weight),
        score_spec(secs2, pen2, weight) >= 0,
        score_spec(secs1, pen1, weight) <= SCORE_CEILING,
{
    assert(weight * pen1 <= weight * pen2) by (nonlinear_arith)
        requires 0 <= pen1 <= pen2, weight >= 0;
    lemma_mul_nonneg(weight, pen1);
}

/// The live score never rises as the end time or the penalty count grows.
pub proof fn lemma_live_score_monotonic(start: u64, end1: u64, end2: u64, pen1: u32, pen2: u32)
    requires
        end1 <= end2,
        pen1 <= pen2,
    ensures
        live_score_spec(start, end2, pen2) <= live_score_spec(start, end1, pen1),
        0 <= live_score_spec(start, end2, pen2) <= SCORE_CEILING,
{
    if end1 >= start {
        assert((end1 - start) / 1_000_000int <= (end2 - start) / 1_000_000int) by (nonlinear_arith)
            requires end1 - start <= end2 - start, 0 <= end1 - start;
    }
    assert(elapsed_secs(start, end1) >= 0);
    lemma_score_monotonic(elapsed_secs(start, end1), elapsed_secs(start, end2), pen1 as int, pen2 as int, 100);
    lemma_score_monotonic(0, elapsed_secs(start, end2), 0, pen2 as int, 100);
}

} // verus!
