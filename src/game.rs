//! One participant's board for the current tournament.

use crate::scoring::{live_score, live_score_spec};
use crate::sudoku::{
    board_view, grid_view, has_conflict, in_range, is_9x9, is_solution, peers, placement_ok, set_cell,
    validate_placement,
};
use vstd::prelude::*;

verus! {

/// A participant's progress on the tournament puzzle.
#[derive(Clone, Debug)]
pub struct PlayerGameState {
    /// Current digits (0 = blank).
    pub board: Vec<Vec<u8>>,
    /// Cells seeded from the puzzle, which never change.
    pub given_mask: Vec<Vec<bool>>,
    /// Invalid placements so far.
    pub penalty_count: u32,
    /// Placements so far, valid or not.
    pub move_count: u32,
    pub start_time_micros: u64,
    pub completed: bool,
    pub completion_time_micros: Option<u64>,
    /// Final score once completed, 0 before.
    pub score: u64,
}

/// The rows of a mask, as sequences.
pub open spec fn mask_view(m: Seq<Vec<bool>>) -> Seq<Seq<bool>> {
    Seq::new(m.len(), |r: int| m[r]@)
}

/// `n + 1`, held at the largest `u32`.
pub open spec fn inc_sat(n: u32) -> u32 {
    if n == u32::MAX {
        n
    } else {
        (n + 1) as u32
    }
}

/// Every cell of `g` equals the one of `solution`.
pub open spec fn matches_solution(g: Seq<Seq<u8>>, solution: Seq<Seq<u8>>) -> bool {
    forall|r: int, c: int| in_range(r, c) ==> #[trigger] g[r][c] == solution[r][c]
}

/// A digit that the cell's row already holds elsewhere is an invalid
/// placement, so `place_value` charges one penalty for it (held at the
/// largest count), and still writes the digit into the cell.
pub proof fn lemma_duplicate_row_value_recorded(g: Seq<Seq<u8>>, r: int, c: int, other: int, v: u8, pen: u32)
    requires
        is_9x9(g),
        in_range(r, c),
        0 <= other < 9,
        other != c,
        g[r][other] == v,
    ensures
        !placement_ok(g, r, c, v),
        (if placement_ok(g, r, c, v) { pen } else { inc_sat(pen) }) == inc_sat(pen),
        pen < u32::MAX ==> inc_sat(pen) == pen + 1,
        set_cell(g, r, c, v)[r][c] == v,
{
    assert(peers(r, c, r, other));
    assert(has_conflict(g, r, c, v));
}

/// A placement that breaks the Sudoku rules never completes a board: after
/// it, the board differs from any valid solution.
pub proof fn lemma_invalid_placement_never_completes(g: Seq<Seq<u8>>, r: int, c: int, v: u8, solution: Seq<Seq<u8>>)
    requires
        is_9x9(g),
        in_range(r, c),
        1 <= v <= 9,
        !placement_ok(g, r, c, v),
        is_solution(solution),
    ensures
        !matches_solution(set_cell(g, r, c, v), solution),
{
    let h = set_cell(g, r, c, v);
    let (r2, c2) = choose|r2: int, c2: int| in_range(r2, c2) && peers(r, c, r2, c2) && #[trigger] g[r2][c2] == v;
    assert(h[r2][c2] == v);
    assert(h[r][c] == v);
    if matches_solution(h, solution) {
        assert(solution[r2][c2] == v);
        assert(solution[r][c] == v);
        assert(has_conflict(solution, r, c, solution[r][c]));
    }
}

impl PlayerGameState {
    pub open spec fn cells(&self) -> Seq<Seq<u8>> {
        board_view(self.board@)
    }

    pub open spec fn given(&self, r: int, c: int) -> bool {
        mask_view(self.given_mask@)[r][c]
    }

    /// Nine rows of nine cells, and a mask of the same shape.
    pub open spec fn wf(&self) -> bool {
        &&& is_9x9(self.cells())
        &&& self.given_mask@.len() == 9
        &&& forall|r: int| 0 <= r < 9 ==> #[trigger] self.given_mask@[r]@.len() == 9
    }

    /// The state belongs to `puzzle`: its givens are the puzzle's non-zero
    /// cells, and they still hold the puzzle's digits.
    pub open spec fn bound_to(&self, puzzle: Seq<Seq<u8>>) -> bool {
        &&& self.wf()
        &&& forall|r: int, c: int| in_range(r, c) ==> #[trigger] self.given(r, c) == (puzzle[r][c] != 0)
        &&& forall|r: int, c: int| in_range(r, c) && self.given(r, c) ==> #[trigger] self.cells()[r][c] == puzzle[r][c]
    }

    /// A fresh state for `puzzle`: the board is the puzzle, the givens are its
    /// non-zero cells, and every counter is zero.
    pub fn new(puzzle: &[[u8; 9]; 9]) -> (s: Self)
        ensures
            s.wf(),
            s.cells() == grid_view(*puzzle),
            s.bound_to(grid_view(*puzzle)),
            s.penalty_count == 0,
            s.move_count == 0,
            s.start_time_micros == 0,
            !s.completed,
            s.completion_time_micros is None,
            s.score == 0,
    {
        let ghost p = grid_view(*puzzle);
        let mut board: Vec<Vec<u8>> = Vec::new();
        let mut given_mask: Vec<Vec<bool>> = Vec::new();
        let mut r: usize = 0;
        while r < 9
            invariant
                r <= 9,
                p == grid_view(*puzzle),
                board@.len() == r,
                given_mask@.len() == r,
                forall|r2: int| 0 <= r2 < r ==> #[trigger] board@[r2]@ == p[r2],
                forall|r2: int| 0 <= r2 < r ==> #[trigger] given_mask@[r2]@.len() == 9,
                forall|r2: int, c2: int| 0 <= r2 < r && 0 <= c2 < 9 ==> #[trigger] given_mask@[r2]@[c2] == (p[r2][c2] != 0),
            decreases 9 - r,
        {
            let mut row: Vec<u8> = Vec::new();
            let mut mask_row: Vec<bool> = Vec::new();
            let mut c: usize = 0;
            while c < 9
                invariant
                    r < 9,
                    c <= 9,
                    p == grid_view(*puzzle),
                    row@.len() == c,
                    mask_row@.len() == c,
                    forall|c2: int| 0 <= c2 < c ==> #[trigger] row@[c2] == p[r as int][c2],
                    forall|c2: int| 0 <= c2 < c ==> #[trigger] mask_row@[c2] == (p[r as int][c2] != 0),
                decreases 9 - c,
            {
                row.push(puzzle[r][c]);
                mask_row.push(puzzle[r][c] != 0);
                c += 1;
            }
            assert(row@ =~= p[r as int]);
            board.push(row);
            given_mask.push(mask_row);
            r += 1;
        }
        let s = PlayerGameState {
            board,
            given_mask,
            penalty_count: 0,
            move_count: 0,
            start_time_micros: 0,
            completed: false,
            completion_time_micros: None,
            score: 0,
        };
        assert(s.cells() =~= p);
        s
    }

    /// True iff every cell equals the solution's.
    pub fn check_complete(&self, solution: &[[u8; 9]; 9]) -> (r: bool)
        requires
            self.wf(),
        ensures
            r == matches_solution(self.cells(), grid_view(*solution)),
    {
        let ghost g = self.cells();
        let ghost s = grid_view(*solution);
        let mut r: usize = 0;
        while r < 9
            invariant
                r <= 9,
                g == self.cells(),
                s == grid_view(*solution),
                is_9x9(g),
                forall|r2: int, c2: int| 0 <= r2 < r && 0 <= c2 < 9 ==> #[trigger] g[r2][c2] == s[r2][c2],
            decreases 9 - r,
        {
            let mut c: usize = 0;
            while c < 9
                invariant
                    r < 9,
                    c <= 9,
                    g == self.cells(),
                    s == grid_view(*solution),
                    is_9x9(g),
                    forall|r2: int, c2: int| 0 <= r2 < r && 0 <= c2 < 9 ==> #[trigger] g[r2][c2] == s[r2][c2],
                    forall|c2: int| 0 <= c2 < c ==> #[trigger] g[r as int][c2] == s[r as int][c2],
                decreases 9 - c,
            {
                assert(self.board@[r as int]@ == g[r as int]);
                if self.board[r][c] != solution[r][c] {
                    return false;
                }
                c += 1;
            }
            r += 1;
        }
        true
    }

    /// `max(0, 10000 - 2 * elapsed_secs - 100 * penalty_count)`, with the
    /// elapsed whole seconds from `start_micros` to `end_micros`.
    pub fn calculate_score(&self, start_micros: u64, end_micros: u64) -> (r: u64)
        ensures
            r == live_score_spec(start_micros, end_micros, self.penalty_count),
    {
        live_score(start_micros, end_micros, self.penalty_count)
    }

    /// A placement on a non-given cell of an unfinished board. An invalid
    /// placement (see `validate_placement`) costs one penalty but is still
    /// written. The move count grows by one. If the board then equals the
    /// solution it is completed at `now`, scored from `window_start`.
    /// Returns whether the placement was valid.
    pub fn place_value(
        &mut self,
        row: usize,
        col: usize,
        value: u8,
        solution: &[[u8; 9]; 9],
        window_start: u64,
        now: u64,
    ) -> (valid: bool)
        requires
            old(self).wf(),
            row < 9,
            col < 9,
            !old(self).given(row as int, col as int),
            !old(self).completed,
        ensures
            valid == placement_ok(old(self).cells(), row as int, col as int, value),
            final(self).wf(),
            final(self).cells() == set_cell(old(self).cells(), row as int, col as int, value),
            final(self).given_mask == old(self).given_mask,
            final(self).penalty_count == if valid { old(self).penalty_count } else { inc_sat(old(self).penalty_count) },
            final(self).move_count == inc_sat(old(self).move_count),
            final(self).start_time_micros == old(self).start_time_micros,
            final(self).completed == matches_solution(final(self).cells(), grid_view(*solution)),
            final(self).completed ==> final(self).completion_time_micros == Some(now)
                && final(self).score == live_score_spec(window_start, now, final(self).penalty_count),
            !final(self).completed ==> final(self).completion_time_micros == old(self).completion_time_micros
                && final(self).score == old(self).score,
            forall|p: Seq<Seq<u8>>| #[trigger] old(self).bound_to(p) ==> final(self).bound_to(p),
    {
        let valid = validate_placement(&self.board, row, col, value);
        if !valid {
            self.penalty_count = self.penalty_count.saturating_add(1);
        }
        let ghost g0 = self.cells();
        assert(self.board@[row as int]@ == g0[row as int]);
        self.board[row][col] = value;
        assert(self.cells() =~= set_cell(g0, row as int, col as int, value));
        self.move_count = self.move_count.saturating_add(1);
        if self.check_complete(solution) {
            self.completed = true;
            self.completion_time_micros = Some(now);
            self.score = self.calculate_score(window_start, now);
        }
        proof {
            self.lemma_write_keeps_givens(*old(self), row as int, col as int, value);
        }
        valid
    }

    /// Blanks a non-given cell of an unfinished board; nothing else changes.
    pub fn clear_value(&mut self, row: usize, col: usize)
        requires
            old(self).wf(),
            row < 9,
            col < 9,
            !old(self).given(row as int, col as int),
            !old(self).completed,
        ensures
            final(self).wf(),
            final(self).cells() == set_cell(old(self).cells(), row as int, col as int, 0),
            final(self).given_mask == old(self).given_mask,
            final(self).penalty_count == old(self).penalty_count,
            final(self).move_count == old(self).move_count,
            final(self).start_time_micros == old(self).start_time_micros,
            final(self).completed == old(self).completed,
            final(self).completion_time_micros == old(self).completion_time_micros,
            final(self).score == old(self).score,
            forall|p: Seq<Seq<u8>>| #[trigger] old(self).bound_to(p) ==> final(self).bound_to(p),
    {
        let ghost g0 = self.cells();
        assert(self.board@[row as int]@ == g0[row as int]);
        self.board[row][col] = 0;
        assert(self.cells() =~= set_cell(g0, row as int, col as int, 0));
        proof {
            self.lemma_write_keeps_givens(*old(self), row as int, col as int, 0);
        }
    }

    /// Writing a non-given cell keeps the state bound to any puzzle it was
    /// bound to: givens never change.
    proof fn lemma_write_keeps_givens(&self, before: PlayerGameState, row: int, col: int, v: u8)
        requires
            before.wf(),
            self.wf(),
            in_range(row, col),
            !before.given(row, col),
            self.given_mask == before.given_mask,
            self.cells() == set_cell(before.cells(), row, col, v),
        ensures
            forall|p: Seq<Seq<u8>>| #[trigger] before.bound_to(p) ==> self.bound_to(p),
    {
        assert forall|p: Seq<Seq<u8>>| #[trigger] before.bound_to(p) implies self.bound_to(p) by {
            assert forall|r: int, c: int| in_range(r, c) implies #[trigger] self.given(r, c) == (p[r][c] != 0) by {
                assert(before.given(r, c) == (p[r][c] != 0));
            }
            assert forall|r: int, c: int| in_range(r, c) && self.given(r, c)
                implies #[trigger] self.cells()[r][c] == p[r][c] by {
                assert(before.given(r, c));
                assert(before.cells()[r][c] == p[r][c]);
            }
        }
    }
}

} // verus!
