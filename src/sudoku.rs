//! Sudoku grids: the rules, placement validation and game replay.

use crate::game::{inc_sat, matches_solution, PlayerGameState};
use crate::generator::generated_by;
use crate::scoring::{replay_score, replay_score_spec};
use vstd::prelude::*;

pub use crate::generator::generate_puzzle;

verus! {

/// Cells taken out of the complete grid to form the puzzle.
pub const CELLS_TO_REMOVE: usize = 46;

/// A puzzle and its complete solution (0 marks a blank puzzle cell).
#[derive(Clone, Debug)]
pub struct SudokuBoard {
    pub puzzle: [[u8; 9]; 9],
    pub solution: [[u8; 9]; 9],
}

/// The rows of a fixed grid, as sequences.
pub open spec fn grid_view(g: [[u8; 9]; 9]) -> Seq<Seq<u8>> {
    Seq::new(9, |r: int| g[r]@)
}

/// The rows of a growable board, as sequences.
pub open spec fn board_view(b: Seq<Vec<u8>>) -> Seq<Seq<u8>> {
    Seq::new(b.len(), |r: int| b[r]@)
}

/// A board of nine rows of nine cells.
pub open spec fn is_9x9(g: Seq<Seq<u8>>) -> bool {
    g.len() == 9 && forall|r: int| 0 <= r < 9 ==> #[trigger] g[r].len() == 9
}

pub open spec fn in_range(r: int, c: int) -> bool {
    0 <= r < 9 && 0 <= c < 9
}

/// Two distinct cells that share a row, a column or a 3x3 box.
pub open spec fn peers(r1: int, c1: int, r2: int, c2: int) -> bool {
    (r1 != r2 || c1 != c2) && (r1 == r2 || c1 == c2 || (r1 / 3 == r2 / 3 && c1 / 3 == c2 / 3))
}

/// Some peer of `(r, c)` already holds `v`.
pub open spec fn has_conflict(g: Seq<Seq<u8>>, r: int, c: int, v: u8) -> bool {
    exists|r2: int, c2: int| in_range(r2, c2) && peers(r, c, r2, c2) && #[trigger] g[r2][c2] == v
}

/// Placing `v` at `(r, c)` obeys the Sudoku rules.
pub open spec fn placement_ok(g: Seq<Seq<u8>>, r: int, c: int, v: u8) -> bool {
    1 <= v <= 9 && in_range(r, c) && !has_conflict(g, r, c, v)
}

/// Every cell holds 0..=9 and no two peers hold the same non-zero digit.
pub open spec fn consistent(g: Seq<Seq<u8>>) -> bool {
    &&& is_9x9(g)
    &&& forall|r: int, c: int| in_range(r, c) ==> #[trigger] g[r][c] <= 9
    &&& forall|r: int, c: int| in_range(r, c) && g[r][c] != 0 ==> !#[trigger] has_conflict(g, r, c, g[r][c])
}

/// No cell is blank.
pub open spec fn full(g: Seq<Seq<u8>>) -> bool {
    forall|r: int, c: int| in_range(r, c) ==> #[trigger] g[r][c] != 0
}

/// A solved grid: each row, column and box holds the digits 1 to 9 once each.
pub open spec fn is_solution(g: Seq<Seq<u8>>) -> bool {
    consistent(g) && full(g)
}

/// Every given of `puzzle` agrees with `solution`.
pub open spec fn givens_agree(puzzle: Seq<Seq<u8>>, solution: Seq<Seq<u8>>) -> bool {
    forall|r: int, c: int| in_range(r, c) && puzzle[r][c] != 0 ==> #[trigger] puzzle[r][c] == solution[r][c]
}

/// `s` is a solved grid that keeps every filled cell of `g`.
pub open spec fn completes(g: Seq<Seq<u8>>, s: Seq<Seq<u8>>) -> bool {
    is_solution(s) && forall|r: int, c: int| in_range(r, c) && g[r][c] != 0 ==> #[trigger] s[r][c] == g[r][c]
}

/// True iff `value` may be placed at `(row, col)`: the value is a digit 1-9, the
/// cell is on the board, and no other cell of its row, column or box holds it.
/// Whether the cell is a given is not checked here.
pub fn validate_placement(board: &[Vec<u8>], row: usize, col: usize, value: u8) -> (r: bool)
    requires
        is_9x9(board_view(board@)),
    ensures
        r == placement_ok(board_view(board@), row as int, col as int, value),
{
    let ghost g = board_view(board@);
    if value < 1 || value > 9 || row > 8 || col > 8 {
        return false;
    }
    let mut c: usize = 0;
    while c < 9
        invariant
            c <= 9,
            row < 9,
            col < 9,
            g == board_view(board@),
            is_9x9(g),
            forall|c2: int| 0 <= c2 < c && c2 != col ==> g[row as int][c2] != value,
        decreases 9 - c,
    {
        assert(board@[row as int]@ == g[row as int]);
        if c != col && board[row][c] == value {
            assert(peers(row as int, col as int, row as int, c as int));
            assert(g[row as int][c as int] == value);
            return false;
        }
        c += 1;
    }
    let mut r: usize = 0;
    while r < 9
        invariant
            r <= 9,
            row < 9,
            col < 9,
            g == board_view(board@),
            is_9x9(g),
            forall|r2: int| 0 <= r2 < r && r2 != row ==> g[r2][col as int] != value,
        decreases 9 - r,
    {
        assert(board@[r as int]@ == g[r as int]);
        if r != row && board[r][col] == value {
            assert(peers(row as int, col as int, r as int, col as int));
            assert(g[r as int][col as int] == value);
            return false;
        }
        r += 1;
    }
    let box_r = (row / 3) * 3;
    let box_c = (col / 3) * 3;
    let mut i: usize = box_r;
    while i < box_r + 3
        invariant
            box_r <= i <= box_r + 3,
            box_r == (row / 3) * 3,
            box_c == (col / 3) * 3,
            row < 9,
            col < 9,
            g == board_view(board@),
            is_9x9(g),
            forall|r2: int, c2: int|
                box_r <= r2 < i && box_c <= c2 < box_c + 3 && (r2 != row || c2 != col)
                    ==> #[trigger] g[r2][c2] != value,
        decreases box_r + 3 - i,
    {
        let mut j: usize = box_c;
        while j < box_c + 3
            invariant
                box_r <= i < box_r + 3,
                box_c <= j <= box_c + 3,
                box_r == (row / 3) * 3,
                box_c == (col / 3) * 3,
                row < 9,
                col < 9,
                g == board_view(board@),
                is_9x9(g),
                forall|r2: int, c2: int|
                    box_r <= r2 < i && box_c <= c2 < box_c + 3 && (r2 != row || c2 != col)
                        ==> #[trigger] g[r2][c2] != value,
                forall|c2: int| box_c <= c2 < j && (i != row || c2 != col) ==> #[trigger] g[i as int][c2] != value,
            decreases box_c + 3 - j,
        {
            assert(board@[i as int]@ == g[i as int]);
            if (i != row || j != col) && board[i][j] == value {
                assert(peers(row as int, col as int, i as int, j as int));
                assert(g[i as int][j as int] == value);
                return false;
            }
            j += 1;
        }
        i += 1;
    }
    assert forall|r2: int, c2: int| in_range(r2, c2) && peers(row as int, col as int, r2, c2)
        implies #[trigger] g[r2][c2] != value by {
        if r2 == row {
        } else if c2 == col {
        } else {
            assert(box_r <= r2 < box_r + 3 && box_c <= c2 < box_c + 3);
        }
    }
    true
}


/// Blank cells in one row.
pub open spec fn zeros_in(s: Seq<u8>) -> nat
    decreases s.len(),
{
    if s.len() == 0 {
        0
    } else {
        zeros_in(s.drop_last()) + if s.last() == 0 { 1nat } else { 0nat }
    }
}

/// Blank cells on a whole board.
pub open spec fn blanks(g: Seq<Seq<u8>>) -> nat
    decreases g.len(),
{
    if g.len() == 0 {
        0
    } else {
        blanks(g.drop_last()) + zeros_in(g.last())
    }
}

/// Writing `v` at `(r, c)`.
pub open spec fn set_cell(g: Seq<Seq<u8>>, r: int, c: int, v: u8) -> Seq<Seq<u8>> {
    g.update(r, g[r].update(c, v))
}

proof fn lemma_zeros_update(s: Seq<u8>, i: int, v: u8)
    requires
        0 <= i < s.len(),
    ensures
        zeros_in(s.update(i, v)) + (if s[i] == 0 { 1int } else { 0int })
            == zeros_in(s) + (if v == 0 { 1int } else { 0int }),
    decreases s.len(),
{
    let t = s.update(i, v);
    if i == s.len() - 1 {
        assert(t.drop_last() =~= s.drop_last());
    } else {
        assert(t.drop_last() =~= s.drop_last().update(i, v));
        lemma_zeros_update(s.drop_last(), i, v);
    }
}

proof fn lemma_blanks_update(g: Seq<Seq<u8>>, r: int, row: Seq<u8>)
    requires
        0 <= r < g.len(),
    ensures
        blanks(g.update(r, row)) + zeros_in(g[r]) == blanks(g) + zeros_in(row),
    decreases g.len(),
{
    let h = g.update(r, row);
    if r == g.len() - 1 {
        assert(h.drop_last() =~= g.drop_last());
    } else {
        assert(h.drop_last() =~= g.drop_last().update(r, row));
        lemma_blanks_update(g.drop_last(), r, row);
    }
}

/// Writing one cell changes the blank count by at most one, as the old and new values say.
pub proof fn lemma_blanks_set_cell(g: Seq<Seq<u8>>, r: int, c: int, v: u8)
    requires
        is_9x9(g),
        in_range(r, c),
    ensures
        blanks(set_cell(g, r, c, v)) + (if g[r][c] == 0 { 1int } else { 0int })
            == blanks(g) + (if v == 0 { 1int } else { 0int }),
{
    lemma_zeros_update(g[r], c, v);
    lemma_blanks_update(g, r, g[r].update(c, v));
}

proof fn lemma_zeros_all(s: Seq<u8>)
    requires
        forall|i: int| 0 <= i < s.len() ==> s[i] == 0,
    ensures
        zeros_in(s) == s.len(),
    decreases s.len(),
{
    if s.len() > 0 {
        lemma_zeros_all(s.drop_last());
    }
}

proof fn lemma_zeros_none(s: Seq<u8>)
    requires
        forall|i: int| 0 <= i < s.len() ==> s[i] != 0,
    ensures
        zeros_in(s) == 0,
    decreases s.len(),
{
    if s.len() > 0 {
        lemma_zeros_none(s.drop_last());
    }
}

proof fn lemma_blanks_all(g: Seq<Seq<u8>>, k: int)
    requires
        0 <= k <= g.len(),
        forall|r: int| 0 <= r < g.len() ==> #[trigger] g[r].len() == 9,
        forall|r: int, c: int| 0 <= r < g.len() && 0 <= c < 9 ==> #[trigger] g[r][c] == 0,
    ensures
        blanks(g.subrange(0, k)) == 9 * k,
    decreases k,
{
    if k > 0 {
        assert(g.subrange(0, k).drop_last() =~= g.subrange(0, k - 1));
        lemma_blanks_all(g, k - 1);
        lemma_zeros_all(g[k - 1]);
    }
}

pub(crate) proof fn lemma_blanks_none(g: Seq<Seq<u8>>)
    requires
        forall|r: int| 0 <= r < g.len() ==> #[trigger] g[r].len() == 9,
        forall|r: int, c: int| 0 <= r < g.len() && 0 <= c < 9 ==> #[trigger] g[r][c] != 0,
    ensures
        blanks(g) == 0,
    decreases g.len(),
{
    if g.len() > 0 {
        let h = g.drop_last();
        assert forall|r: int, c: int| 0 <= r < h.len() && 0 <= c < 9 implies #[trigger] h[r][c] != 0 by {
            assert(h[r] == g[r]);
        }
        lemma_blanks_none(h);
        lemma_zeros_none(g.last());
    }
}

/// A fully blank board has 81 blanks.
pub(crate) proof fn lemma_blank_board(g: Seq<Seq<u8>>)
    requires
        is_9x9(g),
        forall|r: int, c: int| in_range(r, c) ==> #[trigger] g[r][c] == 0,
    ensures
        blanks(g) == 81,
{
    lemma_blanks_all(g, 9);
    assert(g.subrange(0, 9) =~= g);
}

/// Filling a blank cell with a digit that none of its peers holds keeps the board consistent.
pub(crate) proof fn lemma_place_keeps_consistent(g: Seq<Seq<u8>>, r: int, c: int, v: u8)
    requires
        consistent(g),
        in_range(r, c),
        g[r][c] == 0,
        1 <= v <= 9,
        !has_conflict(g, r, c, v),
    ensures
        consistent(set_cell(g, r, c, v)),
{
    let h = set_cell(g, r, c, v);
    assert forall|r1: int, c1: int| in_range(r1, c1) && h[r1][c1] != 0
        implies !#[trigger] has_conflict(h, r1, c1, h[r1][c1]) by {
        if r1 == r && c1 == c {
            if has_conflict(h, r1, c1, v) {
                let (r2, c2) = choose|r2: int, c2: int| in_range(r2, c2) && peers(r1, c1, r2, c2) && #[trigger] h[r2][c2] == v;
                assert(g[r2][c2] == v);
                assert(has_conflict(g, r, c, v));
            }
        } else {
            let w = g[r1][c1];
            assert(h[r1][c1] == w);
            if has_conflict(h, r1, c1, w) {
                let (r2, c2) = choose|r2: int, c2: int| in_range(r2, c2) && peers(r1, c1, r2, c2) && #[trigger] h[r2][c2] == w;
                if r2 == r && c2 == c {
                    assert(peers(r, c, r1, c1));
                    assert(g[r1][c1] == v);
                    assert(has_conflict(g, r, c, v));
                } else {
                    assert(g[r2][c2] == w);
                    assert(has_conflict(g, r1, c1, w));
                }
            }
        }
    }
}

pub(crate) proof fn lemma_grid_view_9x9(g: [[u8; 9]; 9])
    ensures
        is_9x9(grid_view(g)),
{
    assert forall|r: int| 0 <= r < 9 implies #[trigger] grid_view(g)[r].len() == 9 by {
        assert(grid_view(g)[r] == g[r]@);
    }
}

/// Nine pairwise distinct digits from 1 to 9 include every digit.
proof fn lemma_nine_distinct_digits(f: spec_fn(int) -> int, d: int)
    requires
        forall|k: int| 0 <= k < 9 ==> 1 <= #[trigger] f(k) <= 9,
        forall|a: int, b: int| 0 <= a < 9 && 0 <= b < 9 && a != b ==> #[trigger] f(a) != #[trigger] f(b),
        1 <= d <= 9,
    ensures
        exists|k: int| 0 <= k < 9 && #[trigger] f(k) == d,
{
    let idx = vstd::set_lib::set_int_range(0, 9);
    let digits = vstd::set_lib::set_int_range(1, 10);
    vstd::set_lib::lemma_int_range(0, 9);
    vstd::set_lib::lemma_int_range(1, 10);
    let img = idx.map(f);
    assert(vstd::relations::injective_on(f, idx));
    vstd::set_lib::lemma_map_size(idx, img, f);
    assert(img.subset_of(digits)) by {
        assert forall|v: int| img.contains(v) implies digits.contains(v) by {
            let k = choose|k: int| idx.contains(k) && f(k) == v;
        }
    }
    vstd::set_lib::lemma_subset_equality(img, digits);
    assert(digits.contains(d));
    assert(img.contains(d));
    let k = choose|k: int| idx.contains(k) && f(k) == d;
    assert(0 <= k < 9 && f(k) == d);
}

/// In a solved grid every row, every column and every 3x3 box holds each
/// digit from 1 to 9 (exactly once, since peers differ).
pub proof fn lemma_solution_units_are_permutations(g: Seq<Seq<u8>>, i: int, d: u8)
    requires
        is_solution(g),
        0 <= i < 9,
        1 <= d <= 9,
    ensures
        exists|c: int| 0 <= c < 9 && #[trigger] g[i][c] == d,
        exists|r: int| 0 <= r < 9 && #[trigger] g[r][i] == d,
        exists|k: int| 0 <= k < 9 && #[trigger] g[3 * (i / 3) + k / 3][3 * (i % 3) + k % 3] == d,
{
    let fr = |k: int| g[i][k] as int;
    let fc = |k: int| g[k][i] as int;
    let fb = |k: int| g[3 * (i / 3) + k / 3][3 * (i % 3) + k % 3] as int;
    assert forall|a: int, b: int| 0 <= a < 9 && 0 <= b < 9 && a != b implies #[trigger] fr(a) != #[trigger] fr(b) by {
        assert(peers(i, a, i, b));
        if fr(a) == fr(b) {
            assert(has_conflict(g, i, a, g[i][a]));
        }
    }
    assert forall|a: int, b: int| 0 <= a < 9 && 0 <= b < 9 && a != b implies #[trigger] fc(a) != #[trigger] fc(b) by {
        assert(peers(a, i, b, i));
        if fc(a) == fc(b) {
            assert(has_conflict(g, a, i, g[a][i]));
        }
    }
    assert forall|a: int, b: int| 0 <= a < 9 && 0 <= b < 9 && a != b implies #[trigger] fb(a) != #[trigger] fb(b) by {
        let (ra, ca) = (3 * (i / 3) + a / 3, 3 * (i % 3) + a % 3);
        let (rb, cb) = (3 * (i / 3) + b / 3, 3 * (i % 3) + b % 3);
        assert(a == 3 * (a / 3) + a % 3 && b == 3 * (b / 3) + b % 3);
        assert(ra / 3 == i / 3 && rb / 3 == i / 3 && ca / 3 == i % 3 && cb / 3 == i % 3);
        assert(peers(ra, ca, rb, cb));
        if fb(a) == fb(b) {
            assert(has_conflict(g, ra, ca, g[ra][ca]));
        }
    }
    assert forall|k: int| 0 <= k < 9 implies 1 <= #[trigger] fr(k) <= 9 by {}
    assert forall|k: int| 0 <= k < 9 implies 1 <= #[trigger] fc(k) <= 9 by {}
    assert forall|k: int| 0 <= k < 9 implies 1 <= #[trigger] fb(k) <= 9 by {
        assert(in_range(3 * (i / 3) + k / 3, 3 * (i % 3) + k % 3));
    }
    lemma_nine_distinct_digits(fr, d as int);
    lemma_nine_distinct_digits(fc, d as int);
    lemma_nine_distinct_digits(fb, d as int);
    let c = choose|c: int| 0 <= c < 9 && #[trigger] fr(c) == d;
    assert(g[i][c] == d);
    let r = choose|r: int| 0 <= r < 9 && #[trigger] fc(r) == d;
    assert(g[r][i] == d);
    let k = choose|k: int| 0 <= k < 9 && #[trigger] fb(k) == d;
    assert(g[3 * (i / 3) + k / 3][3 * (i % 3) + k % 3] == d);
}

/// One move of a replay: a digit for a cell.
#[derive(Clone, Copy, Debug)]
pub struct MoveInput {
    pub row: u8,
    pub col: u8,
    pub value: u8,
}

/// Outcome of replaying a list of moves against a seeded puzzle.
#[derive(Clone, Copy, Debug)]
pub struct VerifyResult {
    /// The puzzle could be generated.
    pub valid: bool,
    pub total_moves: u32,
    pub penalty_count: u32,
    pub final_score: u64,
    pub board_complete: bool,
}

/// The board and penalty count after one replayed move. Moves off the board,
/// with a digit outside 1-9, or onto a given cell cost a penalty and are
/// skipped; any other move is written, and costs a penalty if it breaks the
/// Sudoku rules.
pub open spec fn replay_step(puzzle: Seq<Seq<u8>>, g: Seq<Seq<u8>>, pen: u32, m: (u8, u8, u8)) -> (Seq<Seq<u8>>, u32) {
    let (r, c, v) = m;
    if r > 8 || c > 8 || v < 1 || v > 9 {
        (g, inc_sat(pen))
    } else if puzzle[r as int][c as int] != 0 {
        (g, inc_sat(pen))
    } else if !placement_ok(g, r as int, c as int, v) {
        (set_cell(g, r as int, c as int, v), inc_sat(pen))
    } else {
        (set_cell(g, r as int, c as int, v), pen)
    }
}

/// The board and penalty count after replaying `moves` in order from `puzzle`.
pub open spec fn replay_state(puzzle: Seq<Seq<u8>>, moves: Seq<(u8, u8, u8)>) -> (Seq<Seq<u8>>, u32)
    decreases moves.len(),
{
    if moves.len() == 0 {
        (puzzle, 0)
    } else {
        let (g, pen) = replay_state(puzzle, moves.drop_last());
        replay_step(puzzle, g, pen, moves.last())
    }
}

/// What replaying `moves` against `board` reports.
pub open spec fn replay_result(board: SudokuBoard, moves: Seq<(u8, u8, u8)>) -> VerifyResult {
    let (g, pen) = replay_state(grid_view(board.puzzle), moves);
    let complete = matches_solution(g, grid_view(board.solution));
    VerifyResult {
        valid: true,
        total_moves: moves.len() as u32,
        penalty_count: pen,
        final_score: if complete { replay_score_spec(pen) as u64 } else { 0 },
        board_complete: complete,
    }
}

/// A board as `generate_puzzle` hands it out.
pub open spec fn well_formed_board(b: SudokuBoard) -> bool {
    &&& is_solution(grid_view(b.solution))
    &&& givens_agree(grid_view(b.puzzle), grid_view(b.solution))
    &&& blanks(grid_view(b.puzzle)) == CELLS_TO_REMOVE
}

/// Replays `moves` in order against `board` from a fresh game state, then
/// checks completion once and scores `max(0, 10000 - 200 * penalties)` if
/// complete (0 otherwise).
pub fn replay_moves(board: &SudokuBoard, moves: &[(u8, u8, u8)]) -> (res: VerifyResult)
    ensures
        res == replay_result(*board, moves@),
{
    let mut state = PlayerGameState::new(&board.puzzle);
    let ghost puzzle = grid_view(board.puzzle);
    proof {
        lemma_grid_view_9x9(board.puzzle);
    }
    let mut penalty_count: u32 = 0;
    let mut i: usize = 0;
    while i < moves.len()
        invariant
            i <= moves@.len(),
            puzzle == grid_view(board.puzzle),
            is_9x9(puzzle),
            state.bound_to(puzzle),
            (state.cells(), penalty_count) == replay_state(puzzle, moves@.subrange(0, i as int)),
        decreases moves@.len() - i,
    {
        proof {
            assert(moves@.subrange(0, i + 1).drop_last() =~= moves@.subrange(0, i as int));
        }
        let (row, col, value) = moves[i];
        let r = row as usize;
        let c = col as usize;
        if r > 8 || c > 8 || value < 1 || value > 9 {
            penalty_count = penalty_count.saturating_add(1);
        } else if state.given_mask[r][c] {
            assert(state.given(r as int, c as int));
            penalty_count = penalty_count.saturating_add(1);
        } else {
            assert(!state.given(r as int, c as int));
            if !validate_placement(&state.board, r, c, value) {
                penalty_count = penalty_count.saturating_add(1);
            }
            let ghost g0 = state.cells();
            let ghost st0 = state;
            assert(state.board@[r as int]@ == g0[r as int]);
            state.board[r][c] = value;
            assert(state.given_mask == st0.given_mask);
            assert(forall|r2: int, c2: int| #[trigger] state.given(r2, c2) == st0.given(r2, c2));
            assert(state.cells() =~= set_cell(g0, r as int, c as int, value));
            assert forall|r2: int| 0 <= r2 < 9 implies #[trigger] state.cells()[r2].len() == 9 by {
                assert(g0[r2].len() == 9);
            }
            assert forall|r2: int, c2: int| in_range(r2, c2) && state.given(r2, c2)
                implies #[trigger] state.cells()[r2][c2] == puzzle[r2][c2] by {
                assert(g0[r2][c2] == puzzle[r2][c2]);
            }
        }
        i += 1;
    }
    proof {
        assert(moves@.subrange(0, moves@.len() as int) =~= moves@);
    }
    let board_complete = state.check_complete(&board.solution);
    let final_score = if board_complete {
        replay_score(penalty_count)
    } else {
        0
    };
    VerifyResult {
        valid: true,
        total_moves: moves.len() as u32,
        penalty_count,
        final_score,
        board_complete,
    }
}

/// Regenerates the puzzle for `seed` and replays `moves` against it (see
/// `replay_moves`). Generation never fails, so the result is always valid.
pub fn verify_game(seed: u64, moves: &[(u8, u8, u8)]) -> (res: VerifyResult)
    ensures
        res.valid,
        exists|b: SudokuBoard| generated_by(b, seed) && well_formed_board(b) && res == replay_result(b, moves@),
{
    match generate_puzzle(seed) {
        Some(board) => {
            let res = replay_moves(&board, moves);
            assert(generated_by(board, seed) && well_formed_board(board) && res == replay_result(board, moves@));
            res
        },
        None => VerifyResult {
            valid: false,
            total_moves: 0,
            penalty_count: 0,
            final_score: 0,
            board_complete: false,
        },
    }
}


/// `verify_game` on moves given as records.
pub fn verify_move_inputs(seed: u64, moves: &Vec<MoveInput>) -> (res: VerifyResult)
    ensures
        res.valid,
        exists|b: SudokuBoard| generated_by(b, seed) && well_formed_board(b)
            && res == replay_result(b, moves@.map_values(|m: MoveInput| (m.row, m.col, m.value))),
{
    let mut tuples: Vec<(u8, u8, u8)> = Vec::new();
    let mut i: usize = 0;
    while i < moves.len()
        invariant
            i <= moves@.len(),
            tuples@ == moves@.subrange(0, i as int).map_values(|m: MoveInput| (m.row, m.col, m.value)),
        decreases moves@.len() - i,
    {
        let m = moves[i];
        tuples.push((m.row, m.col, m.value));
        i += 1;
        assert(tuples@ =~= moves@.subrange(0, i as int).map_values(|m: MoveInput| (m.row, m.col, m.value)));
    }
    assert(moves@.subrange(0, moves@.len() as int) =~= moves@);
    verify_game(seed, tuples.as_slice())
}

/// On a fresh board of a generated puzzle, the solution's digit for any blank
/// cell is an accepted placement, and a digit that a peer already holds is
/// always refused.
pub proof fn lemma_placement_on_fresh_board(b: SudokuBoard, r: int, c: int, v: u8)
    requires
        well_formed_board(b),
        in_range(r, c),
        grid_view(b.puzzle)[r][c] == 0,
    ensures
        placement_ok(grid_view(b.puzzle), r, c, grid_view(b.solution)[r][c]),
        has_conflict(grid_view(b.puzzle), r, c, v) ==> !placement_ok(grid_view(b.puzzle), r, c, v),
{
    let p = grid_view(b.puzzle);
    let s = grid_view(b.solution);
    let d = s[r][c];
    if has_conflict(p, r, c, d) {
        let (r2, c2) = choose|r2: int, c2: int| in_range(r2, c2) && peers(r, c, r2, c2) && #[trigger] p[r2][c2] == d;
        assert(s[r2][c2] == d);
        assert(has_conflict(s, r, c, d));
    }
}

} // verus!
