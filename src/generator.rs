//! Seeded generation of a puzzle and its solution: a shuffled backtracking
//! search fills an empty grid, then a shuffled removal pass blanks cells.

use crate::sudoku::{
    blanks, completes, consistent, full, givens_agree, grid_view, has_conflict, in_range, is_9x9,
    is_solution, lemma_blank_board, lemma_blanks_none, lemma_blanks_set_cell, lemma_grid_view_9x9,
    lemma_place_keeps_consistent, peers, set_cell, well_formed_board, SudokuBoard, CELLS_TO_REMOVE,
};
use crate::shuffler::{permuted, shuffle_in_place, shuffle_order, Shuffler};
use vstd::prelude::*;

verus! {


/// True iff no cell of the row, column or box of `(row, col)` holds `val`
/// (the cell itself included).
fn is_safe(grid: &[[u8; 9]; 9], row: usize, col: usize, val: u8) -> (r: bool)
    requires
        row < 9,
        col < 9,
    ensures
        r == (grid_view(*grid)[row as int][col as int] != val
            && !has_conflict(grid_view(*grid), row as int, col as int, val)),
{
    let ghost g = grid_view(*grid);
    let mut c: usize = 0;
    while c < 9
        invariant
            c <= 9,
            row < 9,
            col < 9,
            g == grid_view(*grid),
            forall|c2: int| 0 <= c2 < c ==> g[row as int][c2] != val,
        decreases 9 - c,
    {
        if grid[row][c] == val {
            assert(g[row as int][c as int] == val);
            if c != col {
                assert(peers(row as int, col as int, row as int, c as int));
            }
            return false;
        }
        c += 1;
    }
    let mut r: usize = 0;
    while r < 9
        invariant
            r <= 9,
            row < 9,
            col < 9,
            g == grid_view(*grid),
            forall|r2: int| 0 <= r2 < r ==> g[r2][col as int] != val,
        decreases 9 - r,
    {
        if grid[r][col] == val {
            assert(g[r as int][col as int] == val);
            if r != row {
                assert(peers(row as int, col as int, r as int, col as int));
            }
            return false;
        }
        r += 1;
    }
    let box_r = (row / 3) * 3;
    let box_c = (col / 3) * 3;
    let mut i: usize = box_r;
    while i < box_r + 3
        invariant
            box_r <= i <= box_r + 3,
            box_r == (row / 3) * 3,
            box_c == (col / 3) * 3,
            row < 9,
            col < 9,
            g == grid_view(*grid),
            forall|r2: int, c2: int|
                box_r <= r2 < i && box_c <= c2 < box_c + 3 ==> #[trigger] g[r2][c2] != val,
        decreases box_r + 3 - i,
    {
        let mut j: usize = box_c;
        while j < box_c + 3
            invariant
                box_r <= i < box_r + 3,
                box_c <= j <= box_c + 3,
                box_r == (row / 3) * 3,
                box_c == (col / 3) * 3,
                row < 9,
                col < 9,
                g == grid_view(*grid),
                forall|r2: int, c2: int|
                    box_r <= r2 < i && box_c <= c2 < box_c + 3 ==> #[trigger] g[r2][c2] != val,
                forall|c2: int| box_c <= c2 < j ==> #[trigger] g[i as int][c2] != val,
            decreases box_c + 3 - j,
        {
            if grid[i][j] == val {
                assert(g[i as int][j as int] == val);
                if i != row || j != col {
                    assert(peers(row as int, col as int, i as int, j as int));
                }
                return false;
            }
            j += 1;
        }
        i += 1;
    }
    assert forall|r2: int, c2: int| in_range(r2, c2) && peers(row as int, col as int, r2, c2)
        implies #[trigger] g[r2][c2] != val by {
        if r2 == row {
        } else if c2 == col {
        } else {
            assert(box_r <= r2 < box_r + 3 && box_c <= c2 < box_c + 3);
        }
    }
    true
}

/// The first blank cell at or after `(r, c)` in row-major order.
pub open spec fn first_blank_from(g: Seq<Seq<u8>>, r: int, c: int) -> Option<(int, int)>
    decreases 9 - r, 9 - c,
{
    if r >= 9 || r < 0 || c < 0 {
        None
    } else if c >= 9 {
        first_blank_from(g, r + 1, 0)
    } else if g[r][c] == 0 {
        Some((r, c))
    } else {
        first_blank_from(g, r, c + 1)
    }
}

/// The first blank cell in row-major order.
pub open spec fn first_blank(g: Seq<Seq<u8>>) -> Option<(int, int)> {
    first_blank_from(g, 0, 0)
}

/// The first blank cell in row-major order, if any.
fn find_empty(grid: &[[u8; 9]; 9]) -> (r: Option<(usize, usize)>)
    ensures
        r matches Some((row, col)) ==> row < 9 && col < 9 && grid_view(*grid)[row as int][col as int] == 0
            && first_blank(grid_view(*grid)) == Some((row as int, col as int)),
        r is None ==> full(grid_view(*grid)) && first_blank(grid_view(*grid)) is None,
{
    let ghost g = grid_view(*grid);
    let mut r: usize = 0;
    while r < 9
        invariant
            r <= 9,
            g == grid_view(*grid),
            forall|r2: int, c2: int| 0 <= r2 < r && 0 <= c2 < 9 ==> #[trigger] g[r2][c2] != 0,
            first_blank(g) == first_blank_from(g, r as int, 0),
        decreases 9 - r,
    {
        let mut c: usize = 0;
        while c < 9
            invariant
                r < 9,
                c <= 9,
                g == grid_view(*grid),
                forall|r2: int, c2: int| 0 <= r2 < r && 0 <= c2 < 9 ==> #[trigger] g[r2][c2] != 0,
                forall|c2: int| 0 <= c2 < c ==> #[trigger] g[r as int][c2] != 0,
                first_blank(g) == first_blank_from(g, r as int, c as int),
            decreases 9 - c,
        {
            if grid[r][c] == 0 {
                return Some((r, c));
            }
            c += 1;
        }
        assert(first_blank_from(g, r as int, 9) == first_blank_from(g, r + 1, 0));
        r += 1;
    }
    assert(first_blank_from(g, 9, 0) is None);
    None
}


/// A cell's candidate digits before they are shuffled.
pub open spec fn digits() -> Seq<u8> {
    seq![1u8, 2u8, 3u8, 4u8, 5u8, 6u8, 7u8, 8u8, 9u8]
}

/// The shuffled backtracking search from `g`, for a generator seeded with
/// `seed` that has shuffled lists of the lengths in `history`: whether it
/// fills the grid, the grid it leaves, and the shuffle record afterwards.
/// The first blank cell (row-major) gets the digits in a freshly shuffled
/// order; each one that no cell of its row, column or box holds is written
/// and the search goes on from there, and a dead end blanks the cell again.
pub open spec fn search(g: Seq<Seq<u8>>, seed: u64, history: Seq<nat>) -> (bool, Seq<Seq<u8>>, Seq<nat>)
    decreases blanks(g), 10int,
{
    match first_blank(g) {
        None => (true, g, history),
        Some((r, c)) => attempt(
            g,
            r,
            c,
            permuted(digits(), shuffle_order(seed, history, 9)),
            0,
            seed,
            history.push(9),
        ),
    }
}

/// The search at blank cell `(r, c)` of `g`, trying `cands` from index `i` on.
pub open spec fn attempt(
    g: Seq<Seq<u8>>,
    r: int,
    c: int,
    cands: Seq<u8>,
    i: int,
    seed: u64,
    history: Seq<nat>,
) -> (bool, Seq<Seq<u8>>, Seq<nat>)
    decreases blanks(g), 9 - i,
{
    if !(is_9x9(g) && in_range(r, c) && g[r][c] == 0) || i < 0 || i >= 9 || i >= cands.len() {
        (false, g, history)
    } else {
        let v = cands[i];
        if g[r][c] != v && !has_conflict(g, r, c, v) {
            proof {
                lemma_blanks_set_cell(g, r, c, v);
            }
            let deeper = search(set_cell(g, r, c, v), seed, history);
            if deeper.0 {
                deeper
            } else {
                attempt(g, r, c, cands, i + 1, seed, deeper.2)
            }
        } else {
            attempt(g, r, c, cands, i + 1, seed, history)
        }
    }
}

/// Fills every blank cell by backtracking over row-major blanks, trying the
/// digits of each cell in a shuffled order. On failure the grid is left as it was.
fn fill_grid(grid: &mut [[u8; 9]; 9], rng: &mut Shuffler) -> (ok: bool)
    requires
        consistent(grid_view(*old(grid))),
    ensures
        consistent(grid_view(*final(grid))),
        ok ==> full(grid_view(*final(grid))),
        !ok ==> grid_view(*final(grid)) == grid_view(*old(grid)),
        !ok ==> forall|s: Seq<Seq<u8>>| !#[trigger] completes(grid_view(*old(grid)), s),
        (ok, grid_view(*final(grid)), final(rng).shuffled_lengths()) == search(grid_view(*old(grid)), old(rng).seed_value(), old(rng).shuffled_lengths()),
        final(rng).seed_value() == old(rng).seed_value(),
    decreases blanks(grid_view(*old(grid))),
{
    let ghost g0 = grid_view(*grid);
    let ghost seed = rng.seed_value();
    match find_empty(grid) {
        None => true,
        Some((row, col)) => {
            let mut candidates: Vec<u8> = vec![1u8, 2, 3, 4, 5, 6, 7, 8, 9];
            let ghost unshuffled = candidates@;
            assert(unshuffled =~= digits());
            let ghost h0 = rng.shuffled_lengths();
            shuffle_in_place(&mut candidates, rng);
            proof {
                lemma_grid_view_9x9(*grid);
            }
            proof {
                broadcast use vstd::seq_lib::group_to_multiset_ensures;
                assert forall|k: int| 0 <= k < candidates@.len() implies 1 <= #[trigger] candidates@[k] <= 9 by {
                    assert(candidates@.to_multiset().count(candidates@[k]) > 0);
                    assert(unshuffled.contains(candidates@[k]));
                }
                assert forall|d: u8| 1 <= d <= 9 implies candidates@.contains(d) by {
                    assert(unshuffled[d - 1] == d);
                    assert(unshuffled.contains(d));
                    assert(unshuffled.to_multiset().count(d) > 0);
                }
            }
            let mut i: usize = 0;
            while i < candidates.len()
                invariant
                    row < 9,
                    col < 9,
                    i <= candidates@.len(),
                    g0[row as int][col as int] == 0,
                    consistent(g0),
                    grid_view(*grid) == g0,
                    g0 == grid_view(*old(grid)),
                    forall|k: int| 0 <= k < candidates@.len() ==> 1 <= #[trigger] candidates@[k] <= 9,
                    forall|d: u8| 1 <= d <= 9 ==> candidates@.contains(d),
                    forall|k: int, s: Seq<Seq<u8>>| 0 <= k < i && #[trigger] completes(g0, s)
                        ==> s[row as int][col as int] != #[trigger] candidates@[k],
                    candidates@.len() == 9,
                    rng.seed_value() == seed,
                    seed == old(rng).seed_value(),
                    search(g0, seed, old(rng).shuffled_lengths()) == attempt(g0, row as int, col as int, candidates@, i as int, seed, rng.shuffled_lengths()),
                decreases candidates@.len() - i,
            {
                let val = candidates[i];
                let ghost tried = i as int;
                if is_safe(grid, row, col, val) {
                    grid[row][col] = val;
                    proof {
                        assert(grid_view(*grid) =~= set_cell(g0, row as int, col as int, val));
                        lemma_place_keeps_consistent(g0, row as int, col as int, val);
                        lemma_blanks_set_cell(g0, row as int, col as int, val);
                    }
                    let ghost g1 = grid_view(*grid);
                    if fill_grid(grid, rng) {
                        return true;
                    }
                    grid[row][col] = 0;
                    proof {
                        assert(grid_view(*grid) =~= set_cell(g1, row as int, col as int, 0));
                        assert(grid_view(*grid)[row as int] =~= g0[row as int]);
                        assert(grid_view(*grid) =~= g0);
                        assert forall|s: Seq<Seq<u8>>| #[trigger] completes(g0, s)
                            implies s[row as int][col as int] != val by {
                            if s[row as int][col as int] == val {
                                assert(completes(g1, s));
                            }
                        }
                    }
                } else {
                    proof {
                        assert forall|s: Seq<Seq<u8>>| #[trigger] completes(g0, s)
                            implies s[row as int][col as int] != val by {
                            if s[row as int][col as int] == val {
                                let (r2, c2) = choose|r2: int, c2: int| in_range(r2, c2)
                                    && peers(row as int, col as int, r2, c2) && #[trigger] g0[r2][c2] == val;
                                assert(s[r2][c2] == val);
                                assert(has_conflict(s, row as int, col as int, val));
                            }
                        }
                    }
                }
                proof {
                    assert(candidates@[tried] == val);
                }
                i += 1;
            }
            proof {
                assert forall|s: Seq<Seq<u8>>| !#[trigger] completes(g0, s) by {
                    if completes(g0, s) {
                        let d = s[row as int][col as int];
                        assert(1 <= d <= 9);
                        assert(candidates@.contains(d));
                        let k = choose|k: int| 0 <= k < candidates@.len() && candidates@[k] == d;
                        assert(s[row as int][col as int] != candidates@[k]);
                    }
                }
            }
            false
        },
    }
}


/// Every cell, in row-major order.
pub open spec fn all_positions() -> Seq<(usize, usize)> {
    Seq::new(81, |k: int| ((k / 9) as usize, (k % 9) as usize))
}

/// The grid after the removal pass visits `order` from index `i` on, with
/// `removed` cells blanked so far: a filled cell is blanked, then its point
/// reflection too if that is filled, a different cell, and the count allows;
/// the pass stops once `CELLS_TO_REMOVE` cells are blank.
pub open spec fn removal(g: Seq<Seq<u8>>, order: Seq<(usize, usize)>, i: int, removed: int) -> Seq<Seq<u8>>
    decreases order.len() - i,
{
    if i < 0 || i >= order.len() || removed >= CELLS_TO_REMOVE {
        g
    } else {
        let r = order[i].0 as int;
        let c = order[i].1 as int;
        if g[r][c] != 0 {
            let g1 = set_cell(g, r, c, 0);
            let sr = 8 - r;
            let sc = 8 - c;
            if removed + 1 < CELLS_TO_REMOVE && g1[sr][sc] != 0 && (sr != r || sc != c) {
                removal(set_cell(g1, sr, sc, 0), order, i + 1, removed + 2)
            } else {
                removal(g1, order, i + 1, removed + 1)
            }
        } else {
            removal(g, order, i + 1, removed)
        }
    }
}

/// Blanks `CELLS_TO_REMOVE` cells of a full grid: positions are visited in a
/// shuffled order, and each filled one is blanked together with its point
/// reflection `(8 - r, 8 - c)` while the count allows.
fn remove_cells(grid: &mut [[u8; 9]; 9], rng: &mut Shuffler)
    requires
        is_9x9(grid_view(*old(grid))),
        full(grid_view(*old(grid))),
    ensures
        givens_agree(grid_view(*final(grid)), grid_view(*old(grid))),
        blanks(grid_view(*final(grid))) == CELLS_TO_REMOVE,
        grid_view(*final(grid)) == removal(grid_view(*old(grid)),
            permuted(all_positions(), shuffle_order(old(rng).seed_value(), old(rng).shuffled_lengths(), 81)), 0, 0),
        final(rng).seed_value() == old(rng).seed_value(),
        final(rng).shuffled_lengths() == old(rng).shuffled_lengths().push(81),
{
    let ghost s0 = grid_view(*grid);
    proof {
        lemma_grid_view_9x9(*grid);
        lemma_blanks_none(s0);
    }
    let mut positions: Vec<(usize, usize)> = Vec::new();
    let mut r: usize = 0;
    while r < 9
        invariant
            r <= 9,
            forall|k: int| 0 <= k < positions@.len() ==> (#[trigger] positions@[k]).0 < 9 && positions@[k].1 < 9,
            forall|r2: usize, c2: usize| r2 < r && c2 < 9 ==> positions@.contains((r2, c2)),
            positions@ == all_positions().subrange(0, 9 * r),
        decreases 9 - r,
    {
        let mut c: usize = 0;
        while c < 9
            invariant
                r < 9,
                c <= 9,
                forall|k: int| 0 <= k < positions@.len() ==> (#[trigger] positions@[k]).0 < 9 && positions@[k].1 < 9,
                forall|r2: usize, c2: usize| r2 < r && c2 < 9 ==> positions@.contains((r2, c2)),
                forall|c2: usize| c2 < c ==> positions@.contains((r, c2)),
                positions@ == all_positions().subrange(0, 9 * r + c),
            decreases 9 - c,
        {
            let ghost before = positions@;
            positions.push((r, c));
            proof {
                assert((9 * r + c) / 9 == r as int && (9 * r + c) % 9 == c as int);
                assert(positions@ =~= all_positions().subrange(0, 9 * r + c + 1));
                assert(positions@[before.len() as int] == (r, c));
                assert forall|r2: usize, c2: usize| r2 < r && c2 < 9 implies positions@.contains((r2, c2)) by {
                    assert(before.contains((r2, c2)));
                    let k = choose|k: int| 0 <= k < before.len() && before[k] == (r2, c2);
                    assert(positions@[k] == (r2, c2));
                }
                assert forall|c2: usize| c2 < c + 1 implies positions@.contains((r, c2)) by {
                    if c2 < c {
                        assert(before.contains((r, c2)));
                        let k = choose|k: int| 0 <= k < before.len() && before[k] == (r, c2);
                        assert(positions@[k] == (r, c2));
                    }
                }
            }
            c += 1;
        }
        r += 1;
    }
    let ghost ordered = positions@;
    assert(ordered =~= all_positions());
    shuffle_in_place(&mut positions, rng);
    proof {
        broadcast use vstd::seq_lib::group_to_multiset_ensures;
        assert forall|k: int| 0 <= k < positions@.len() implies (#[trigger] positions@[k]).0 < 9 && positions@[k].1 < 9 by {
            assert(positions@.to_multiset().count(positions@[k]) > 0);
            assert(ordered.contains(positions@[k]));
        }
        assert forall|r2: usize, c2: usize| r2 < 9 && c2 < 9 implies positions@.contains((r2, c2)) by {
            assert(ordered.contains((r2, c2)));
            assert(ordered.to_multiset().count((r2, c2)) > 0);
        }
    }
    let mut removed: usize = 0;
    let mut i: usize = 0;
    while i < positions.len() && removed < CELLS_TO_REMOVE
        invariant
            i <= positions@.len(),
            removed <= CELLS_TO_REMOVE,
            is_9x9(s0),
            full(s0),
            givens_agree(grid_view(*grid), s0),
            blanks(grid_view(*grid)) == removed,
            forall|k: int| 0 <= k < positions@.len() ==> (#[trigger] positions@[k]).0 < 9 && positions@[k].1 < 9,
            forall|r2: usize, c2: usize| r2 < 9 && c2 < 9 ==> positions@.contains((r2, c2)),
            forall|k: int| 0 <= k < i ==> grid_view(*grid)[(#[trigger] positions@[k]).0 as int][positions@[k].1 as int] == 0,
            removal(s0, positions@, 0, 0) == removal(grid_view(*grid), positions@, i as int, removed as int),
        decreases positions@.len() - i,
    {
        proof {
            lemma_grid_view_9x9(*grid);
        }
        let (r, c) = positions[i];
        if grid[r][c] != 0 {
            let ghost g1 = grid_view(*grid);
            grid[r][c] = 0;
            proof {
                assert(grid_view(*grid) =~= set_cell(g1, r as int, c as int, 0));
                lemma_blanks_set_cell(g1, r as int, c as int, 0);
            }
            removed += 1;
            let sym_r = 8 - r;
            let sym_c = 8 - c;
            if removed < CELLS_TO_REMOVE && grid[sym_r][sym_c] != 0 && (sym_r != r || sym_c != c) {
                let ghost g2 = grid_view(*grid);
                proof {
                    lemma_grid_view_9x9(*grid);
                }
                grid[sym_r][sym_c] = 0;
                proof {
                    assert(grid_view(*grid) =~= set_cell(g2, sym_r as int, sym_c as int, 0));
                    lemma_blanks_set_cell(g2, sym_r as int, sym_c as int, 0);
                }
                removed += 1;
            }
        }
        i += 1;
    }
    proof {
        lemma_grid_view_9x9(*grid);
        let g = grid_view(*grid);
        if removed < CELLS_TO_REMOVE {
            assert forall|r2: int, c2: int| in_range(r2, c2) implies #[trigger] g[r2][c2] == 0 by {
                assert(positions@.contains((r2 as usize, c2 as usize)));
                let k = choose|k: int| 0 <= k < positions@.len() && positions@[k] == (r2 as usize, c2 as usize);
                assert(g[(positions@[k]).0 as int][positions@[k].1 as int] == 0);
            }
            lemma_blank_board(g);
        }
    }
}

/// A fixed solved grid. It shows that a solution exists, so the search from
/// an empty grid cannot come back empty-handed.
pub open spec fn pattern_cell(r: int, c: int) -> u8 {
    (((r % 3) * 3 + r / 3 + c) % 9 + 1) as u8
}

pub open spec fn pattern_grid() -> Seq<Seq<u8>> {
    Seq::new(9, |r: int| Seq::new(9, |c: int| pattern_cell(r, c)))
}

proof fn lemma_mod9_distinct(x: int, y: int)
    requires
        0 <= x,
        0 <= y,
        x != y,
        -9 < x - y < 9,
    ensures
        x % 9 != y % 9,
{
    assert(x % 9 != y % 9) by (nonlinear_arith)
        requires 0 <= x, 0 <= y, x != y, -9 < x - y < 9;
}

proof fn lemma_pattern_distinct(r1: int, c1: int, r2: int, c2: int)
    requires
        in_range(r1, c1),
        in_range(r2, c2),
        peers(r1, c1, r2, c2),
    ensures
        pattern_cell(r1, c1) != pattern_cell(r2, c2),
{
    let x1 = (r1 % 3) * 3 + r1 / 3 + c1;
    let x2 = (r2 % 3) * 3 + r2 / 3 + c2;
    assert(0 <= r1 % 3 < 3 && 0 <= r2 % 3 < 3);
    assert(0 <= r1 / 3 < 3 && 0 <= r2 / 3 < 3);
    assert(r1 == 3 * (r1 / 3) + r1 % 3);
    assert(r2 == 3 * (r2 / 3) + r2 % 3);
    assert(c1 == 3 * (c1 / 3) + c1 % 3);
    assert(c2 == 3 * (c2 / 3) + c2 % 3);
    if r1 == r2 {
        lemma_mod9_distinct(x1, x2);
    } else if c1 == c2 {
        lemma_mod9_distinct(x1, x2);
    } else {
        lemma_mod9_distinct(x1, x2);
    }
    assert(0 <= x1 % 9 < 9 && 0 <= x2 % 9 < 9);
}

proof fn lemma_pattern_is_solution()
    ensures
        is_solution(pattern_grid()),
{
    let g = pattern_grid();
    assert forall|r: int| 0 <= r < 9 implies #[trigger] g[r].len() == 9 by {}
    assert forall|r: int, c: int| in_range(r, c) implies 1 <= #[trigger] g[r][c] <= 9 by {
        assert(0 <= ((r % 3) * 3 + r / 3 + c) % 9 < 9);
    }
    assert forall|r: int, c: int| in_range(r, c) && g[r][c] != 0 implies !#[trigger] has_conflict(g, r, c, g[r][c]) by {
        if has_conflict(g, r, c, g[r][c]) {
            let (r2, c2) = choose|r2: int, c2: int| in_range(r2, c2) && peers(r, c, r2, c2) && #[trigger] g[r2][c2] == g[r][c];
            lemma_pattern_distinct(r, c, r2, c2);
        }
    }
}

/// An all-blank grid.
pub open spec fn empty_grid() -> Seq<Seq<u8>> {
    Seq::new(9, |r: int| Seq::new(9, |c: int| 0u8))
}

/// The search from an empty grid with a generator freshly seeded with `seed`.
pub open spec fn search_for(seed: u64) -> (bool, Seq<Seq<u8>>, Seq<nat>) {
    search(empty_grid(), seed, Seq::empty())
}

/// The solution generated for `seed`.
pub open spec fn solution_for(seed: u64) -> Seq<Seq<u8>> {
    search_for(seed).1
}

/// The puzzle generated for `seed`: its solution after the removal pass over
/// a shuffled order of all cells, drawn from the same generator.
pub open spec fn puzzle_for(seed: u64) -> Seq<Seq<u8>> {
    removal(solution_for(seed), permuted(all_positions(), shuffle_order(seed, search_for(seed).2, 81)), 0, 0)
}

/// `b` is the board generated for `seed`.
pub open spec fn generated_by(b: SudokuBoard, seed: u64) -> bool {
    grid_view(b.solution) == solution_for(seed) && grid_view(b.puzzle) == puzzle_for(seed)
}

proof fn lemma_grid_view_injective(a: [[u8; 9]; 9], b: [[u8; 9]; 9])
    requires
        grid_view(a) == grid_view(b),
    ensures
        a == b,
{
    assert forall|i: int| 0 <= i < 9 implies a[i] == b[i] by {
        assert(grid_view(a)[i] == grid_view(b)[i]);
        assert(a[i]@ == b[i]@);
        assert(a[i] =~= b[i]);
    }
    assert(a =~= b);
}

/// Generation is deterministic: every board that `generate_puzzle` hands out
/// for one seed has the same puzzle and the same solution.
pub proof fn lemma_generation_is_deterministic(seed: u64, b1: SudokuBoard, b2: SudokuBoard)
    requires
        generated_by(b1, seed),
        generated_by(b2, seed),
    ensures
        b1.puzzle == b2.puzzle,
        b1.solution == b2.solution,
{
    lemma_grid_view_injective(b1.puzzle, b2.puzzle);
    lemma_grid_view_injective(b1.solution, b2.solution);
}

/// Builds the board for `seed`: a complete grid filled by shuffled
/// backtracking, then `CELLS_TO_REMOVE` cells blanked. The search cannot fail
/// from an empty grid, so the result is always `Some`, and it is the board
/// that `search` and `removal` describe for the seed.
pub fn generate_puzzle(seed: u64) -> (res: Option<SudokuBoard>)
    ensures
        res is Some,
        res matches Some(b) ==> well_formed_board(b) && generated_by(b, seed),
{
    let mut rng = Shuffler::new(seed);
    let mut grid: [[u8; 9]; 9] = [[0u8; 9]; 9];
    proof {
        lemma_grid_view_9x9(grid);
        assert(consistent(grid_view(grid)));
    }
    let ghost empty = grid_view(grid);
    assert(empty =~= empty_grid()) by {
        assert forall|r: int| 0 <= r < 9 implies #[trigger] empty[r] =~= empty_grid()[r] by {}
    }
    if !fill_grid(&mut grid, &mut rng) {
        proof {
            lemma_pattern_is_solution();
            assert(completes(empty, pattern_grid()));
        }
        return None;
    }
    let solution = grid;
    let mut puzzle = grid;
    remove_cells(&mut puzzle, &mut rng);
    Some(SudokuBoard { puzzle, solution })
}


} // verus!
