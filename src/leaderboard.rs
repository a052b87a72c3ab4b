//! The hub's leaderboard: entries, their ranking, and the updates that the
//! progress and completion signals make.

use crate::game::inc_sat;
use crate::scoring::{is_suspicious_pace, live_score, live_score_spec, pace_suspicious};
use vstd::prelude::*;

verus! {

/// One participant's standing in the current tournament.
#[derive(Clone, Debug)]
pub struct LeaderboardEntry {
    /// The participant this row belongs to.
    pub wallet: u64,
    pub discord_username: String,
    /// Estimated while in progress, final once completed.
    pub score: u64,
    /// 0 while in progress.
    pub completion_time_micros: u64,
    pub penalty_count: u32,
    pub move_count: u32,
    pub completed: bool,
    pub first_move_time_micros: u64,
    pub last_move_time_micros: u64,
    /// Set by the pace heuristic; never cleared.
    pub is_suspicious: bool,
}

impl LeaderboardEntry {
    /// A copy of this entry.
    pub fn duplicate(&self) -> (r: Self)
        ensures
            r == *self,
    {
        LeaderboardEntry {
            wallet: self.wallet,
            discord_username: self.discord_username.clone(),
            score: self.score,
            completion_time_micros: self.completion_time_micros,
            penalty_count: self.penalty_count,
            move_count: self.move_count,
            completed: self.completed,
            first_move_time_micros: self.first_move_time_micros,
            last_move_time_micros: self.last_move_time_micros,
            is_suspicious: self.is_suspicious,
        }
    }
}

/// `a` is listed before `b`. Completed entries come first. Among completed
/// ones: higher score, then earlier completion. Among unfinished ones: higher
/// score, then fewer penalties, then more moves. Remaining ties go to the
/// lower wallet.
pub open spec fn ranks_before(a: LeaderboardEntry, b: LeaderboardEntry) -> bool {
    if a.completed != b.completed {
        a.completed
    } else if a.score != b.score {
        a.score > b.score
    } else if a.completed && a.completion_time_micros != b.completion_time_micros {
        a.completion_time_micros < b.completion_time_micros
    } else if !a.completed && a.penalty_count != b.penalty_count {
        a.penalty_count < b.penalty_count
    } else if !a.completed && a.move_count != b.move_count {
        a.move_count > b.move_count
    } else {
        a.wallet < b.wallet
    }
}

/// Each entry is listed before every later one.
pub open spec fn sorted_by_rank(s: Seq<LeaderboardEntry>) -> bool {
    forall|i: int, j: int| 0 <= i < j < s.len() ==> ranks_before(#[trigger] s[i], #[trigger] s[j])
}

/// No two entries share a wallet.
pub open spec fn unique_wallets(s: Seq<LeaderboardEntry>) -> bool {
    forall|i: int, j: int| 0 <= i < j < s.len() ==> (#[trigger] s[i]).wallet != (#[trigger] s[j]).wallet
}

/// The ranking is a strict total order on entries of distinct participants:
/// irreflexive, asymmetric, transitive, and total.
pub proof fn lemma_rank_is_strict_total_order(a: LeaderboardEntry, b: LeaderboardEntry, c: LeaderboardEntry)
    ensures
        !ranks_before(a, a),
        ranks_before(a, b) ==> !ranks_before(b, a),
        ranks_before(a, b) && ranks_before(b, c) ==> ranks_before(a, c),
        a.wallet != b.wallet ==> ranks_before(a, b) || ranks_before(b, a),
{
}

/// In a ranked list every completed entry precedes every unfinished one.
pub proof fn lemma_completed_first(s: Seq<LeaderboardEntry>, i: int, j: int)
    requires
        sorted_by_rank(s),
        0 <= i < s.len(),
        0 <= j < s.len(),
        s[i].completed,
        !s[j].completed,
    ensures
        i < j,
{
    if j < i {
        assert(ranks_before(s[j], s[i]));
    }
}

/// Decides `ranks_before(*a, *b)`.
pub fn ranks_before_exec(a: &LeaderboardEntry, b: &LeaderboardEntry) -> (r: bool)
    ensures
        r == ranks_before(*a, *b),
{
    if a.completed != b.completed {
        a.completed
    } else if a.score != b.score {
        a.score > b.score
    } else if a.completed && a.completion_time_micros != b.completion_time_micros {
        a.completion_time_micros < b.completion_time_micros
    } else if !a.completed && a.penalty_count != b.penalty_count {
        a.penalty_count < b.penalty_count
    } else if !a.completed && a.move_count != b.move_count {
        a.move_count > b.move_count
    } else {
        a.wallet < b.wallet
    }
}

/// Orders entries of distinct participants by `ranks_before`. The result holds
/// the same entries; a list already in order comes back unchanged.
pub fn sort_entries(entries: Vec<LeaderboardEntry>) -> (r: Vec<LeaderboardEntry>)
    requires
        unique_wallets(entries@),
    ensures
        sorted_by_rank(r@),
        r@.to_multiset() == entries@.to_multiset(),
        r@.len() == entries@.len(),
        sorted_by_rank(entries@) ==> r@ == entries@,
{
    let ghost all = entries@;
    let mut rest = entries;
    let mut out: Vec<LeaderboardEntry> = Vec::new();
    proof {
        assert(all.subrange(0, all.len() as int) =~= all);
        assert(all.subrange(all.len() as int, all.len() as int) =~= Seq::<LeaderboardEntry>::empty());
    }
    while rest.len() > 0
        invariant
            unique_wallets(all),
            rest@ == all.subrange(0, rest@.len() as int),
            rest@.len() <= all.len(),
            sorted_by_rank(out@),
            out@.to_multiset() == all.subrange(rest@.len() as int, all.len() as int).to_multiset(),
            out@.len() + rest@.len() == all.len(),
            sorted_by_rank(all) ==> out@ == all.subrange(rest@.len() as int, all.len() as int),
        decreases rest@.len(),
    {
        let ghost n = rest@.len() as int;
        let e = rest.pop().unwrap();
        proof {
            assert(e == all[n - 1]);
            // wallets of `out` are those of all[n..], so `e`'s differs from each
            broadcast use vstd::seq_lib::group_to_multiset_ensures;
            assert forall|k: int| 0 <= k < out@.len() implies (#[trigger] out@[k]).wallet != e.wallet by {
                assert(out@.to_multiset().count(out@[k]) > 0);
                assert(all.subrange(n, all.len() as int).contains(out@[k]));
                let m = choose|m: int| 0 <= m < all.len() - n && all.subrange(n, all.len() as int)[m] == out@[k];
                assert(all[n + m] == out@[k]);
            }
        }
        let mut pos: usize = 0;
        while pos < out.len() && ranks_before_exec(&out[pos], &e)
            invariant
                pos <= out@.len(),
                forall|k: int| 0 <= k < pos ==> ranks_before(#[trigger] out@[k], e),
            decreases out@.len() - pos,
        {
            pos += 1;
        }
        let ghost before = out@;
        proof {
            if pos < before.len() {
                assert(before[pos as int].wallet != e.wallet);
                assert(ranks_before(e, before[pos as int]));
            }
            assert forall|k: int| pos <= k < before.len() implies ranks_before(e, #[trigger] before[k]) by {
                if k > pos {
                    assert(ranks_before(before[pos as int], before[k]));
                }
            }
        }
        out.insert(pos, e);
        proof {
            before.insert_ensures(pos as int, e);
            assert forall|i: int, j: int| 0 <= i < j < out@.len() implies ranks_before(#[trigger] out@[i], #[trigger] out@[j]) by {
                if j < pos {
                } else if j == pos {
                } else if i < pos {
                    assert(out@[j] == before[j - 1]);
                    assert(ranks_before(e, before[j - 1]));
                } else if i == pos {
                    assert(out@[j] == before[j - 1]);
                } else {
                    assert(out@[i] == before[i - 1]);
                    assert(out@[j] == before[j - 1]);
                }
            }
            let tail = all.subrange(n - 1, all.len() as int);
            assert(tail =~= all.subrange(n, all.len() as int).insert(0, e));
            assert(before.insert(pos as int, e).to_multiset() =~= before.to_multiset().insert(e)) by {
                let s = before.insert(pos as int, e);
                assert(s.remove(pos as int) =~= before);
                assert(s.remove(pos as int).to_multiset() =~= s.to_multiset().remove(s[pos as int]));
            }
            assert(tail.remove(0) =~= all.subrange(n, all.len() as int));
            assert(tail.remove(0).to_multiset() =~= tail.to_multiset().remove(tail[0]));
            assert(tail.to_multiset().count(e) > 0);
            if sorted_by_rank(all) {
                if pos > 0 {
                    assert(before[0] == all[n]);
                    assert(ranks_before(e, before[0]));
                    assert(ranks_before(before[0], e));
                }
                assert(out@ =~= tail);
            }
        }
    }
    proof {
        assert(all.subrange(0, all.len() as int) =~= all);
    }
    out
}


/// The row for a participant's first progress signal: estimated score, one
/// move, not completed, first and last move at `timestamp`, not flagged.
pub open spec fn is_first_progress_row(
    e: LeaderboardEntry,
    wallet: u64,
    name: Seq<char>,
    tournament_start: u64,
    timestamp: u64,
    penalty_count: u32,
) -> bool {
    &&& e.wallet == wallet
    &&& e.discord_username@ == name
    &&& e.score == live_score_spec(tournament_start, timestamp, penalty_count)
    &&& e.completion_time_micros == 0
    &&& e.penalty_count == penalty_count
    &&& e.move_count == 1
    &&& !e.completed
    &&& e.first_move_time_micros == timestamp
    &&& e.last_move_time_micros == timestamp
    &&& !e.is_suspicious
}

/// `new` is `old` after a later progress signal: one more move, the reported
/// penalty count, a fresh estimate, the new last move time, and the pace
/// check from the first move to `timestamp`, which can only set the flag.
pub open spec fn is_progress_update(
    old: LeaderboardEntry,
    new: LeaderboardEntry,
    tournament_start: u64,
    timestamp: u64,
    penalty_count: u32,
) -> bool {
    &&& new.wallet == old.wallet
    &&& new.discord_username == old.discord_username
    &&& new.score == live_score_spec(tournament_start, timestamp, penalty_count)
    &&& new.completion_time_micros == old.completion_time_micros
    &&& new.penalty_count == penalty_count
    &&& new.move_count == inc_sat(old.move_count)
    &&& !new.completed
    &&& new.first_move_time_micros == old.first_move_time_micros
    &&& new.last_move_time_micros == timestamp
    &&& new.is_suspicious == (old.is_suspicious
        || pace_suspicious(old.first_move_time_micros, timestamp, new.move_count))
}

/// The finished row for a completion signal: exact score, completed, solve
/// from `solve_start`, and the pace check over the actual solve, which can set
/// the flag but never clears one that the earlier row had.
pub open spec fn is_completion_row(
    e: LeaderboardEntry,
    existing: Option<LeaderboardEntry>,
    wallet: u64,
    name: Seq<char>,
    tournament_start: u64,
    completion_time: u64,
    penalty_count: u32,
    move_count: u32,
) -> bool {
    &&& e.wallet == wallet
    &&& e.discord_username@ == name
    &&& e.score == live_score_spec(tournament_start, completion_time, penalty_count)
    &&& e.completion_time_micros == completion_time
    &&& e.penalty_count == penalty_count
    &&& e.move_count == move_count
    &&& e.completed
    &&& e.first_move_time_micros == solve_start(existing, tournament_start)
    &&& e.last_move_time_micros == completion_time
    &&& e.is_suspicious == ((existing matches Some(x) && x.is_suspicious)
        || pace_suspicious(solve_start(existing, tournament_start), completion_time, move_count))
}

/// The row made for a participant's first progress signal: estimated score,
/// one move, not completed, first and last move at `timestamp`.
pub fn new_progress_entry(
    wallet: u64,
    discord_username: String,
    tournament_start: u64,
    timestamp: u64,
    penalty_count: u32,
) -> (e: LeaderboardEntry)
    ensures
        is_first_progress_row(e, wallet, discord_username@, tournament_start, timestamp, penalty_count),
{
    LeaderboardEntry {
        wallet,
        discord_username,
        score: live_score(tournament_start, timestamp, penalty_count),
        completion_time_micros: 0,
        penalty_count,
        move_count: 1,
        completed: false,
        first_move_time_micros: timestamp,
        last_move_time_micros: timestamp,
        is_suspicious: false,
    }
}

/// A later progress signal on an unfinished row: one more move, the reported
/// penalty count, a fresh estimate, the new last move time, and the pace
/// check over first move to `timestamp` (which can only set the flag).
pub fn apply_progress(entry: &mut LeaderboardEntry, tournament_start: u64, timestamp: u64, penalty_count: u32)
    requires
        !old(entry).completed,
    ensures
        is_progress_update(*old(entry), *final(entry), tournament_start, timestamp, penalty_count),
{
    entry.move_count = entry.move_count.saturating_add(1);
    entry.penalty_count = penalty_count;
    entry.score = live_score(tournament_start, timestamp, penalty_count);
    entry.last_move_time_micros = timestamp;
    if is_suspicious_pace(entry.first_move_time_micros, timestamp, entry.move_count) {
        entry.is_suspicious = true;
    }
}

/// The pace flag, once set, is never cleared: along any run of progress
/// signals on a row, and through the completion that follows, a row flagged
/// at some point stays flagged. A progress signal that takes the row to five
/// or more moves at under six seconds per interval since its first move sets
/// the flag, and so does such a pace over the whole solve at
/// completion.
pub proof fn lemma_suspicion_is_sticky(
    rows: Seq<LeaderboardEntry>,
    tournament_start: u64,
    stamps: Seq<u64>,
    penalties: Seq<u32>,
    done: LeaderboardEntry,
    completion_time: u64,
    final_penalties: u32,
    final_moves: u32,
)
    requires
        rows.len() == stamps.len() + 1,
        penalties.len() == stamps.len(),
        forall|k: int| 0 <= k < stamps.len() ==> is_progress_update(#[trigger] rows[k], rows[k + 1],
            tournament_start, stamps[k], penalties[k]),
        is_completion_row(done, Some(rows.last()), rows.last().wallet, rows.last().discord_username@,
            tournament_start, completion_time, final_penalties, final_moves),
    ensures
        forall|j: int, k: int| 0 <= j <= k < rows.len() && (#[trigger] rows[j]).is_suspicious
            ==> (#[trigger] rows[k]).is_suspicious,
        forall|j: int| 0 <= j < rows.len() && (#[trigger] rows[j]).is_suspicious ==> done.is_suspicious,
        forall|k: int| 0 <= k < stamps.len()
            && pace_suspicious(rows[k].first_move_time_micros, stamps[k], #[trigger] rows[k + 1].move_count)
            ==> rows[k + 1].is_suspicious,
        pace_suspicious(solve_start(Some(rows.last()), tournament_start), completion_time, final_moves)
            ==> done.is_suspicious,
{
    lemma_flag_chain(rows, tournament_start, stamps, penalties);
    assert forall|j: int| 0 <= j < rows.len() && (#[trigger] rows[j]).is_suspicious implies done.is_suspicious by {
        assert(rows[rows.len() - 1].is_suspicious);
    }
}

proof fn lemma_flag_chain(rows: Seq<LeaderboardEntry>, tournament_start: u64, stamps: Seq<u64>, penalties: Seq<u32>)
    requires
        rows.len() == stamps.len() + 1,
        penalties.len() == stamps.len(),
        forall|k: int| 0 <= k < stamps.len() ==> is_progress_update(#[trigger] rows[k], rows[k + 1],
            tournament_start, stamps[k], penalties[k]),
    ensures
        forall|j: int, k: int| 0 <= j <= k < rows.len() && (#[trigger] rows[j]).is_suspicious
            ==> (#[trigger] rows[k]).is_suspicious,
    decreases rows.len(),
{
    if rows.len() > 1 {
        let n = stamps.len() - 1;
        let front = rows.drop_last();
        assert forall|k: int| 0 <= k < stamps.drop_last().len() implies is_progress_update(#[trigger] front[k],
            front[k + 1], tournament_start, stamps.drop_last()[k], penalties.drop_last()[k]) by {
            assert(is_progress_update(rows[k], rows[k + 1], tournament_start, stamps[k], penalties[k]));
        }
        lemma_flag_chain(front, tournament_start, stamps.drop_last(), penalties.drop_last());
        assert(is_progress_update(rows[n], rows[n + 1], tournament_start, stamps[n], penalties[n]));
        assert forall|j: int, k: int| 0 <= j <= k < rows.len() && (#[trigger] rows[j]).is_suspicious
            implies (#[trigger] rows[k]).is_suspicious by {
            if k == rows.len() - 1 && j < k {
                assert(front[j] == rows[j]);
                assert(front[n] == rows[n]);
            } else if k < rows.len() - 1 {
                assert(front[j] == rows[j]);
                assert(front[k] == rows[k]);
            }
        }
    }
}

/// When the solve began: the row's first move if there is a row, else the
/// tournament start.
pub open spec fn solve_start(existing: Option<LeaderboardEntry>, tournament_start: u64) -> u64 {
    match existing {
        Some(e) => e.first_move_time_micros,
        None => tournament_start,
    }
}

/// The finished row for a completion signal: exact score, completed, and the
/// pace check over the actual solve (which can set the flag but never clears
/// one that the earlier row had).
pub fn completion_entry(
    existing: &Option<LeaderboardEntry>,
    wallet: u64,
    discord_username: String,
    tournament_start: u64,
    completion_time: u64,
    penalty_count: u32,
    move_count: u32,
) -> (e: LeaderboardEntry)
    ensures
        is_completion_row(e, *existing, wallet, discord_username@, tournament_start, completion_time, penalty_count, move_count),
{
    let (first_move, was_suspicious) = match existing {
        Some(x) => (x.first_move_time_micros, x.is_suspicious),
        None => (tournament_start, false),
    };
    let suspicious = was_suspicious || is_suspicious_pace(first_move, completion_time, move_count);
    LeaderboardEntry {
        wallet,
        discord_username,
        score: live_score(tournament_start, completion_time, penalty_count),
        completion_time_micros: completion_time,
        penalty_count,
        move_count,
        completed: true,
        first_move_time_micros: first_move,
        last_move_time_micros: completion_time,
        is_suspicious: suspicious,
    }
}

/// Index of the row of `wallet`, if any.
pub fn find_entry(entries: &Vec<LeaderboardEntry>, wallet: u64) -> (r: Option<usize>)
    ensures
        r matches Some(i) ==> i < entries@.len() && entries@[i as int].wallet == wallet,
        r is None ==> forall|k: int| 0 <= k < entries@.len() ==> (#[trigger] entries@[k]).wallet != wallet,
{
    let mut i: usize = 0;
    while i < entries.len()
        invariant
            i <= entries@.len(),
            forall|k: int| 0 <= k < i ==> (#[trigger] entries@[k]).wallet != wallet,
        decreases entries@.len() - i,
    {
        if entries[i].wallet == wallet {
            return Some(i);
        }
        i += 1;
    }
    None
}

/// `r` is the first `limit` rows of the ranking of `entries`: in rank order,
/// at most `limit` long, drawn from `entries`, and ahead of every row left out.
pub open spec fn top_of(r: Seq<LeaderboardEntry>, entries: Seq<LeaderboardEntry>, limit: u32) -> bool {
    &&& sorted_by_rank(r)
    &&& r.len() == if entries.len() < limit { entries.len() as int } else { limit as int }
    &&& forall|k: int| 0 <= k < r.len() ==> entries.contains(#[trigger] r[k])
    &&& forall|x: LeaderboardEntry| entries.contains(x) && !r.contains(x)
        ==> forall|k: int| 0 <= k < r.len() ==> ranks_before(#[trigger] r[k], x)
}

/// Two ranked lists holding the same entries are the same list.
proof fn lemma_sorted_same_entries_equal(r1: Seq<LeaderboardEntry>, r2: Seq<LeaderboardEntry>)
    requires
        sorted_by_rank(r1),
        sorted_by_rank(r2),
        r1.len() == r2.len(),
        forall|x: LeaderboardEntry| r1.contains(x) ==> r2.contains(x),
        forall|x: LeaderboardEntry| r2.contains(x) ==> r1.contains(x),
    ensures
        r1 == r2,
    decreases r1.len(),
{
    if r1.len() > 0 {
        assert(r1.contains(r1[0]));
        let m = choose|m: int| 0 <= m < r2.len() && r2[m] == r1[0];
        if m > 0 {
            assert(ranks_before(r2[0], r2[m]));
            assert(r2.contains(r2[0]));
            let j = choose|j: int| 0 <= j < r1.len() && r1[j] == r2[0];
            if j > 0 {
                assert(ranks_before(r1[0], r1[j]));
            }
        }
        assert(r1[0] == r2[0]);
        let t1 = r1.drop_first();
        let t2 = r2.drop_first();
        assert forall|x: LeaderboardEntry| t1.contains(x) implies t2.contains(x) by {
            let i = choose|i: int| 0 <= i < t1.len() && t1[i] == x;
            assert(ranks_before(r1[0], r1[i + 1]));
            assert(r2.contains(x));
            let k = choose|k: int| 0 <= k < r2.len() && r2[k] == x;
            assert(k != 0);
            assert(t2[k - 1] == x);
        }
        assert forall|x: LeaderboardEntry| t2.contains(x) implies t1.contains(x) by {
            let i = choose|i: int| 0 <= i < t2.len() && t2[i] == x;
            assert(ranks_before(r2[0], r2[i + 1]));
            assert(r1.contains(x));
            let k = choose|k: int| 0 <= k < r1.len() && r1[k] == x;
            assert(k != 0);
            assert(t1[k - 1] == x);
        }
        lemma_sorted_same_entries_equal(t1, t2);
        assert(r1 =~= seq![r1[0]] + t1);
        assert(r2 =~= seq![r2[0]] + t2);
    }
}

proof fn lemma_sorted_no_duplicates(r: Seq<LeaderboardEntry>)
    requires
        sorted_by_rank(r),
    ensures
        r.no_duplicates(),
{
    assert forall|i: int, j: int| 0 <= i < r.len() && 0 <= j < r.len() && i != j implies r[i] != r[j] by {
        if i < j {
            assert(ranks_before(r[i], r[j]));
        } else {
            assert(ranks_before(r[j], r[i]));
        }
    }
}

/// Every entry of one top list is in the other.
proof fn lemma_top_lists_share_entries(r1: Seq<LeaderboardEntry>, r2: Seq<LeaderboardEntry>, entries: Seq<LeaderboardEntry>, limit: u32)
    requires
        top_of(r1, entries, limit),
        top_of(r2, entries, limit),
    ensures
        forall|x: LeaderboardEntry| r1.contains(x) ==> r2.contains(x),
{
    assert forall|x: LeaderboardEntry| r1.contains(x) implies r2.contains(x) by {
        if !r2.contains(x) {
            let i = choose|i: int| 0 <= i < r1.len() && r1[i] == x;
            assert(entries.contains(r1[i]));
            // every entry of r2 is in r1 and differs from x
            assert forall|y: LeaderboardEntry| r2.to_set().contains(y) implies r1.to_set().remove(x).contains(y) by {
                let k = choose|k: int| 0 <= k < r2.len() && r2[k] == y;
                assert(entries.contains(r2[k]));
                assert(ranks_before(r2[k], x));
                if !r1.contains(y) {
                    assert(ranks_before(r1[i], y));
                }
            }
            lemma_sorted_no_duplicates(r1);
            lemma_sorted_no_duplicates(r2);
            r1.unique_seq_to_set();
            r2.unique_seq_to_set();
            assert(r1.to_set().contains(x));
            vstd::set_lib::lemma_len_subset(r2.to_set(), r1.to_set().remove(x));
        }
    }
}

/// A top list of entries with distinct participants has distinct
/// participants too, so it can be ranked again.
proof fn lemma_top_list_unique_wallets(r: Seq<LeaderboardEntry>, entries: Seq<LeaderboardEntry>, limit: u32)
    requires
        top_of(r, entries, limit),
        unique_wallets(entries),
    ensures
        unique_wallets(r),
{
    assert forall|i: int, j: int| 0 <= i < j < r.len() implies (#[trigger] r[i]).wallet != (#[trigger] r[j]).wallet by {
        assert(ranks_before(r[i], r[j]));
        assert(entries.contains(r[i]) && entries.contains(r[j]));
        let a = choose|a: int| 0 <= a < entries.len() && entries[a] == r[i];
        let b = choose|b: int| 0 <= b < entries.len() && entries[b] == r[j];
        if a < b {
            assert(entries[a].wallet != entries[b].wallet);
        } else if b < a {
            assert(entries[b].wallet != entries[a].wallet);
        }
    }
}

/// The ranked read is unique: any two lists that are the first `limit` rows
/// of the ranking of the same entries are equal. So repeated reads of an
/// unchanged leaderboard give the same sequence, and (by `sort_entries`)
/// ranking that sequence again leaves it as it is.
pub proof fn lemma_ranked_read_is_unique(
    r1: Seq<LeaderboardEntry>,
    r2: Seq<LeaderboardEntry>,
    entries: Seq<LeaderboardEntry>,
    limit: u32,
)
    requires
        top_of(r1, entries, limit),
        top_of(r2, entries, limit),
    ensures
        r1 == r2,
        sorted_by_rank(r1),
{
    lemma_top_lists_share_entries(r1, r2, entries, limit);
    lemma_top_lists_share_entries(r2, r1, entries, limit);
    lemma_sorted_same_entries_equal(r1, r2);
}

/// The first `limit` rows of the ranking: in rank order, at most `limit`
/// long, drawn from `entries`, and ahead of every row left out.
pub fn top_entries(entries: &Vec<LeaderboardEntry>, limit: u32) -> (r: Vec<LeaderboardEntry>)
    requires
        unique_wallets(entries@),
    ensures
        top_of(r@, entries@, limit),
        unique_wallets(r@),
{
    let copy = copy_entries(entries);
    let mut ranked = sort_entries(copy);
    let ghost full = ranked@;
    if (limit as usize) < ranked.len() {
        ranked.truncate(limit as usize);
    }
    proof {
        broadcast use vstd::seq_lib::group_to_multiset_ensures;
        assert(ranked@ =~= full.subrange(0, ranked@.len() as int));
        assert forall|k: int| 0 <= k < ranked@.len() implies entries@.contains(#[trigger] ranked@[k]) by {
            assert(full[k] == ranked@[k]);
            assert(full.to_multiset().count(full[k]) > 0);
        }
        assert forall|x: LeaderboardEntry| entries@.contains(x) && !ranked@.contains(x)
            implies forall|k: int| 0 <= k < ranked@.len() ==> ranks_before(#[trigger] ranked@[k], x) by {
            assert(entries@.to_multiset().count(x) > 0);
            assert(full.contains(x));
            let m = choose|m: int| 0 <= m < full.len() && full[m] == x;
            if m < ranked@.len() {
                assert(ranked@[m] == x);
            }
            assert forall|k: int| 0 <= k < ranked@.len() implies ranks_before(#[trigger] ranked@[k], x) by {
                assert(full[k] == ranked@[k]);
            }
        }
    }
    proof {
        lemma_top_list_unique_wallets(ranked@, entries@, limit);
    }
    ranked
}

/// A copy of every row, in order.
pub fn copy_entries(entries: &Vec<LeaderboardEntry>) -> (r: Vec<LeaderboardEntry>)
    ensures
        r@ == entries@,
{
    let mut copy: Vec<LeaderboardEntry> = Vec::new();
    let mut i: usize = 0;
    while i < entries.len()
        invariant
            i <= entries@.len(),
            copy@ == entries@.subrange(0, i as int),
        decreases entries@.len() - i,
    {
        copy.push(entries[i].duplicate());
        i += 1;
        assert(copy@ =~= entries@.subrange(0, i as int));
    }
    assert(copy@ =~= entries@);
    copy
}

/// Saturating sum of the scores of `s`: the exact sum, held at `u64::MAX`.
pub open spec fn score_sum(s: Seq<LeaderboardEntry>) -> int
    decreases s.len(),
{
    if s.len() == 0 {
        0
    } else {
        score_sum(s.drop_last()) + s.last().score
    }
}

pub open spec fn completions(s: Seq<LeaderboardEntry>) -> int
    decreases s.len(),
{
    if s.len() == 0 {
        0
    } else {
        completions(s.drop_last()) + if s.last().completed { 1int } else { 0int }
    }
}

pub open spec fn best_score(s: Seq<LeaderboardEntry>) -> int
    decreases s.len(),
{
    if s.len() == 0 {
        0
    } else {
        let b = best_score(s.drop_last());
        if s.last().score > b { s.last().score as int } else { b }
    }
}

pub open spec fn cap(n: int, max: int) -> int {
    if n > max { max } else { n }
}

/// Rows, completed rows, average score and best score over `entries`. Counts
/// and the score total hold at their type's maximum; the average is the
/// total divided by the rows, 0 for no rows.
pub fn summarize(entries: &Vec<LeaderboardEntry>) -> (r: (u32, u32, u64, u64))
    ensures
        r.0 == cap(entries@.len() as int, u32::MAX as int),
        r.1 == cap(completions(entries@), u32::MAX as int),
        r.2 == if r.0 == 0 { 0 } else { cap(score_sum(entries@), u64::MAX as int) / r.0 as int },
        r.3 == best_score(entries@),
{
    let mut players: u32 = 0;
    let mut done: u32 = 0;
    let mut total: u64 = 0;
    let mut best: u64 = 0;
    let mut i: usize = 0;
    while i < entries.len()
        invariant
            i <= entries@.len(),
            players == cap(i as int, u32::MAX as int),
            done == cap(completions(entries@.subrange(0, i as int)), u32::MAX as int),
            total == cap(score_sum(entries@.subrange(0, i as int)), u64::MAX as int),
            best == best_score(entries@.subrange(0, i as int)),
            score_sum(entries@.subrange(0, i as int)) >= 0,
            completions(entries@.subrange(0, i as int)) >= 0,
        decreases entries@.len() - i,
    {
        proof {
            assert(entries@.subrange(0, i + 1).drop_last() =~= entries@.subrange(0, i as int));
        }
        let e = &entries[i];
        players = players.saturating_add(1);
        if e.completed {
            done = done.saturating_add(1);
        }
        total = total.saturating_add(e.score);
        if e.score > best {
            best = e.score;
        }
        i += 1;
    }
    assert(entries@.subrange(0, entries@.len() as int) =~= entries@);
    let average = if players > 0 {
        total / players as u64
    } else {
        0
    };
    (players, done, average, best)
}

} // verus!
