//! The board itself: grid dimensions, mine layout, per-cell player state,
//! precomputed neighbor-mine counts, and the loss flag, together with the
//! operations a game session performs on them.

use vstd::pervasive::VecAdditionalExecFns;
use vstd::prelude::*;

use crate::grid::{adjacent, col_of, in_bounds, index_of, row_of};
use crate::grid::{
    lemma_decompose_in_bounds, lemma_index_bounds, lemma_index_decompose, lemma_index_order,
    lemma_rc_adjacent,
};
use crate::model::{
    chord_result, count_at, counts_ok, flag_ind, flag_next, flags_at, mine_ind, reveal_lost,
    reveal_states, reveal_step, won_spec,
};
use crate::model::{
    covered_count, floods_to, lemma_covered_count_nonneg, lemma_covered_count_update,
    lemma_flood_no_mine, lemma_floods_to_self, lemma_floods_to_step, lemma_saturated_path_open,
    zero_path,
};
use crate::rng::{fresh_rng, rand_below};
use crate::{Tile, TileState};

verus! {

/// Linear index of the cell a (row, col) pair denotes.
pub open spec fn pair_index(width: int, p: (u32, u32)) -> int {
    index_of(width, p.0 as int, p.1 as int)
}

/// Some pair on the work stack denotes cell j.
pub open spec fn stack_has(st: Seq<(u32, u32)>, width: int, j: int) -> bool {
    exists|m: int| 0 <= m < st.len() && pair_index(width, #[trigger] st[m]) == j
}

/// Pushing keeps every cell already on the stack and adds the new one.
proof fn lemma_stack_push_preserves(st: Seq<(u32, u32)>, x: (u32, u32), width: int)
    ensures
        forall|k: int|
            #![trigger stack_has(st, width, k)]
            stack_has(st, width, k) ==> stack_has(st.push(x), width, k),
        stack_has(st.push(x), width, pair_index(width, x)),
{
    assert forall|k: int| stack_has(st, width, k) implies stack_has(st.push(x), width, k) by {
        let m = choose|m: int| 0 <= m < st.len() && pair_index(width, #[trigger] st[m]) == k;
        assert(st.push(x)[m] == st[m]);
        assert(0 <= m < st.push(x).len() && pair_index(width, st.push(x)[m]) == k);
    }
    assert(st.push(x)[st.len() as int] == x);
}

/// A stack that keeps its prefix keeps every cell the prefix held.
proof fn lemma_stack_has_grow(st1: Seq<(u32, u32)>, st2: Seq<(u32, u32)>, width: int)
    requires
        st1.len() <= st2.len(),
        forall|m: int| 0 <= m < st1.len() ==> st2[m] == #[trigger] st1[m],
    ensures
        forall|k: int|
            #![trigger stack_has(st1, width, k)]
            stack_has(st1, width, k) ==> stack_has(st2, width, k),
{
    assert forall|k: int| stack_has(st1, width, k) implies stack_has(st2, width, k) by {
        let m = choose|m: int| 0 <= m < st1.len() && pair_index(width, #[trigger] st1[m]) == k;
        assert(0 <= m < st2.len() && pair_index(width, st2[m]) == k);
    }
}

/// Popping loses at most the popped cell.
proof fn lemma_stack_has_pop(st: Seq<(u32, u32)>, width: int)
    requires
        st.len() >= 1,
    ensures
        forall|k: int|
            #![trigger stack_has(st, width, k)]
            stack_has(st, width, k) ==> stack_has(st.subrange(0, st.len() - 1), width, k) || k
                == pair_index(width, st[st.len() - 1]),
{
    assert forall|k: int|
        stack_has(st, width, k) && k != pair_index(width, st[st.len() - 1]) implies stack_has(
        st.subrange(0, st.len() - 1),
        width,
        k,
    ) by {
        let m = choose|m: int| 0 <= m < st.len() && pair_index(width, #[trigger] st[m]) == k;
        assert(m < st.len() - 1);
        assert(st.subrange(0, st.len() - 1)[m] == st[m]);
    }
}

/// Push every in-bounds 8-neighbor of (r, c) onto the work stack.
fn push_neighbors(stack: &mut Vec<(u32, u32)>, width: u32, height: u32, r: u32, c: u32)
    requires
        0 < width,
        0 < height,
        width * height <= u32::MAX,
        r < height,
        c < width,
    ensures
        final(stack)@.len() >= old(stack)@.len(),
        forall|m: int| 0 <= m < old(stack)@.len() ==> final(stack)@[m] == #[trigger] old(stack)@[m],
        forall|m: int|
            #![trigger final(stack)@[m]]
            old(stack)@.len() <= m < final(stack)@.len() ==> in_bounds(
                width as int,
                height as int,
                final(stack)@[m].0 as int,
                final(stack)@[m].1 as int,
            ) && adjacent(
                width as int,
                height as int,
                index_of(width as int, r as int, c as int),
                pair_index(width as int, final(stack)@[m]),
            ),
        forall|k: int|
            #[trigger] adjacent(width as int, height as int, index_of(width as int, r as int, c as int), k)
                ==> stack_has(final(stack)@, width as int, k),
{
    let ghost w = width as int;
    let ghost h = height as int;
    let ghost i0 = index_of(w, r as int, c as int);
    if r > 0 && c > 0 {
        let ghost st0 = stack@;
        let p = (r - 1, c - 1);
        stack.push(p);
        proof {
            lemma_stack_push_preserves(st0, p, w);
            lemma_rc_adjacent(w, h, r as int, c as int, r as int - 1, c as int - 1);
        }
    }
    if r > 0 {
        let ghost st0 = stack@;
        let p = (r - 1, c);
        stack.push(p);
        proof {
            lemma_stack_push_preserves(st0, p, w);
            lemma_rc_adjacent(w, h, r as int, c as int, r as int - 1, c as int);
        }
    }
    if r > 0 && c + 1 < width {
        let ghost st0 = stack@;
        let p = (r - 1, c + 1);
        stack.push(p);
        proof {
            lemma_stack_push_preserves(st0, p, w);
            lemma_rc_adjacent(w, h, r as int, c as int, r as int - 1, c as int + 1);
        }
    }
    if c > 0 {
        let ghost st0 = stack@;
        let p = (r, c - 1);
        stack.push(p);
        proof {
            lemma_stack_push_preserves(st0, p, w);
            lemma_rc_adjacent(w, h, r as int, c as int, r as int, c as int - 1);
        }
    }
    if c + 1 < width {
        let ghost st0 = stack@;
        let p = (r, c + 1);
        stack.push(p);
        proof {
            lemma_stack_push_preserves(st0, p, w);
            lemma_rc_adjacent(w, h, r as int, c as int, r as int, c as int + 1);
        }
    }
    if r + 1 < height && c > 0 {
        let ghost st0 = stack@;
        let p = (r + 1, c - 1);
        stack.push(p);
        proof {
            lemma_stack_push_preserves(st0, p, w);
            lemma_rc_adjacent(w, h, r as int, c as int, r as int + 1, c as int - 1);
        }
    }
    if r + 1 < height {
        let ghost st0 = stack@;
        let p = (r + 1, c);
        stack.push(p);
        proof {
            lemma_stack_push_preserves(st0, p, w);
            lemma_rc_adjacent(w, h, r as int, c as int, r as int + 1, c as int);
        }
    }
    if r + 1 < height && c + 1 < width {
        let ghost st0 = stack@;
        let p = (r + 1, c + 1);
        stack.push(p);
        proof {
            lemma_stack_push_preserves(st0, p, w);
            lemma_rc_adjacent(w, h, r as int, c as int, r as int + 1, c as int + 1);
        }
    }
    proof {
        lemma_index_bounds(w, h, r as int, c as int);
        lemma_index_decompose(w, r as int, c as int);
        assert forall|k: int| adjacent(w, h, i0, k) implies stack_has(stack@, w, k) by {
            lemma_decompose_in_bounds(w, h, k);
            let rk = row_of(w, k);
            let ck = col_of(w, k);
            let dr = rk - r as int;
            let dc = ck - c as int;
            assert(dr == -1 || dr == 0 || dr == 1);
            assert(dc == -1 || dc == 0 || dc == 1);
            assert(!(dr == 0 && dc == 0));
            assert(k == index_of(w, r as int + dr, c as int + dc));
        }
    }
}

/// 1 when (r, c) lies on the grid and holds a mine, matching `mine_ind`.
fn mine_flag(tiles: &Vec<Tile>, width: u32, height: u32, r: i64, c: i64) -> (n: u8)
    requires
        0 < width,
        0 < height,
        width * height <= u32::MAX,
        tiles@.len() == width * height,
    ensures
        n as int == mine_ind(tiles@, width as int, height as int, r as int, c as int),
        n <= 1,
{
    if r >= 0 && c >= 0 && r < height as i64 && c < width as i64 {
        proof {
            lemma_index_bounds(width as int, height as int, r as int, c as int);
        }
        let i = (r * (width as i64) + c) as usize;
        if tiles[i] == Tile::Mine {
            1
        } else {
            0
        }
    } else {
        0
    }
}

/// Count the mines among the in-bounds 8-neighbors of (r, c).
fn count_mines_around(tiles: &Vec<Tile>, width: u32, height: u32, r: u32, c: u32) -> (n: u8)
    requires
        0 < width,
        0 < height,
        width * height <= u32::MAX,
        tiles@.len() == width * height,
        r < height,
        c < width,
    ensures
        n as int == count_at(tiles@, width as int, height as int, r as int, c as int),
{
    let r0 = r as i64;
    let c0 = c as i64;
    let mut n: u8 = 0;
    n = n + mine_flag(tiles, width, height, r0 - 1, c0 - 1);
    n = n + mine_flag(tiles, width, height, r0 - 1, c0);
    n = n + mine_flag(tiles, width, height, r0 - 1, c0 + 1);
    n = n + mine_flag(tiles, width, height, r0, c0 - 1);
    n = n + mine_flag(tiles, width, height, r0, c0 + 1);
    n = n + mine_flag(tiles, width, height, r0 + 1, c0 - 1);
    n = n + mine_flag(tiles, width, height, r0 + 1, c0);
    n = n + mine_flag(tiles, width, height, r0 + 1, c0 + 1);
    n
}

/// Compute the neighbor-mine count of every cell, row-major.
fn compute_counts(tiles: &Vec<Tile>, width: u32, height: u32) -> (counts: Vec<u8>)
    requires
        0 < width,
        0 < height,
        width * height <= u32::MAX,
        tiles@.len() == width * height,
    ensures
        counts@.len() == width * height,
        counts_ok(tiles@, counts@, width as int, height as int),
{
    let ghost w = width as int;
    let ghost h = height as int;
    let mut counts: Vec<u8> = Vec::new();
    let mut r: u32 = 0;
    while r < height
        invariant
            0 < width,
            0 < height,
            width * height <= u32::MAX,
            tiles@.len() == width * height,
            w == width as int,
            h == height as int,
            r <= height,
            counts@.len() == r * width,
            forall|r2: int, c2: int|
                0 <= r2 < r && 0 <= c2 < w ==> counts@[index_of(w, r2, c2)] == #[trigger] count_at(
                    tiles@,
                    w,
                    h,
                    r2,
                    c2,
                ),
        decreases height - r,
    {
        let mut c: u32 = 0;
        while c < width
            invariant
                0 < width,
                0 < height,
                width * height <= u32::MAX,
                tiles@.len() == width * height,
                w == width as int,
                h == height as int,
                r < height,
                c <= width,
                counts@.len() == r * width + c,
                forall|r2: int, c2: int|
                    0 <= r2 < r && 0 <= c2 < w ==> counts@[index_of(w, r2, c2)]
                        == #[trigger] count_at(tiles@, w, h, r2, c2),
                forall|c2: int|
                    0 <= c2 < c ==> counts@[index_of(w, r as int, c2)] == #[trigger] count_at(
                        tiles@,
                        w,
                        h,
                        r as int,
                        c2,
                    ),
            decreases width - c,
        {
            let n = count_mines_around(tiles, width, height, r, c);
            proof {
                assert forall|r2: int, c2: int| 0 <= r2 < r && 0 <= c2 < w implies index_of(
                    w,
                    r2,
                    c2,
                ) < counts@.len() by {
                    lemma_index_order(w, r2, c2, r as int, c as int);
                }
                assert forall|c2: int| 0 <= c2 < c implies index_of(w, r as int, c2)
                    < counts@.len() by {
                    lemma_index_order(w, r as int, c2, r as int, c as int);
                }
            }
            counts.push(n);
            c += 1;
        }
        proof {
            assert(r as int * w + w == (r + 1) as int * w) by (nonlinear_arith);
        }
        r += 1;
    }
    proof {
        assert(h * w == w * h) by (nonlinear_arith);
        assert forall|r2: int, c2: int| in_bounds(w, h, r2, c2) implies counts@[index_of(
            w,
            r2,
            c2,
        )] == #[trigger] count_at(tiles@, w, h, r2, c2) by {}
    }
    counts
}

/// 1 when (r, c) lies on the grid and is flagged, matching `flag_ind`.
fn flag_flag(states: &Vec<TileState>, width: u32, height: u32, r: i64, c: i64) -> (n: u8)
    requires
        0 < width,
        0 < height,
        width * height <= u32::MAX,
        states@.len() == width * height,
    ensures
        n as int == flag_ind(states@, width as int, height as int, r as int, c as int),
        n <= 1,
{
    if r >= 0 && c >= 0 && r < height as i64 && c < width as i64 {
        proof {
            lemma_index_bounds(width as int, height as int, r as int, c as int);
        }
        let i = (r * (width as i64) + c) as usize;
        if states[i] == TileState::Flagged {
            1
        } else {
            0
        }
    } else {
        0
    }
}

/// Count the flags among the in-bounds 8-neighbors of (r, c).
fn count_flags_around(states: &Vec<TileState>, width: u32, height: u32, r: u32, c: u32) -> (n: u8)
    requires
        0 < width,
        0 < height,
        width * height <= u32::MAX,
        states@.len() == width * height,
        r < height,
        c < width,
    ensures
        n as int == flags_at(states@, width as int, height as int, r as int, c as int),
{
    let r0 = r as i64;
    let c0 = c as i64;
    let mut n: u8 = 0;
    n = n + flag_flag(states, width, height, r0 - 1, c0 - 1);
    n = n + flag_flag(states, width, height, r0 - 1, c0);
    n = n + flag_flag(states, width, height, r0 - 1, c0 + 1);
    n = n + flag_flag(states, width, height, r0, c0 - 1);
    n = n + flag_flag(states, width, height, r0, c0 + 1);
    n = n + flag_flag(states, width, height, r0 + 1, c0 - 1);
    n = n + flag_flag(states, width, height, r0 + 1, c0);
    n = n + flag_flag(states, width, height, r0 + 1, c0 + 1);
    n
}

/// Rewrite the cell at (r, c) to Empty when it lies on the grid.
fn force_empty(tiles: &mut Vec<Tile>, width: u32, height: u32, r: i64, c: i64)
    requires
        0 < width,
        0 < height,
        width * height <= u32::MAX,
        old(tiles)@.len() == width * height,
    ensures
        final(tiles)@.len() == old(tiles)@.len(),
        forall|j: int|
            #![trigger final(tiles)@[j]]
            0 <= j < old(tiles)@.len() ==> final(tiles)@[j] == (if in_bounds(
                width as int,
                height as int,
                r as int,
                c as int,
            ) && j == index_of(width as int, r as int, c as int) {
                Tile::Empty
            } else {
                old(tiles)@[j]
            }),
{
    if r >= 0 && c >= 0 && r < height as i64 && c < width as i64 {
        proof {
            lemma_index_bounds(width as int, height as int, r as int, c as int);
        }
        let i = (r * (width as i64) + c) as usize;
        tiles.set(i, Tile::Empty);
    }
}

pub struct Board {
    pub width: u32,
    pub height: u32,
    pub tiles: Vec<Tile>,
    pub uncovered: Vec<TileState>,
    pub neighbors: Vec<u8>,
    pub lost: bool,
}

impl Board {
    /// Build a board over a given mine layout: every cell covered, the
    /// game not lost, and the neighbor-mine counts computed from the
    /// layout. The deterministic core of construction, and the way a
    /// caller in charge of its own mine placement obtains a board.
    pub fn from_tiles(width: u32, height: u32, tiles: Vec<Tile>) -> (board: Board)
        requires
            0 < width,
            0 < height,
            width * height <= u32::MAX,
            tiles@.len() == width * height,
        ensures
            board.well_formed(),
            board.width == width,
            board.height == height,
            board.tiles@ == tiles@,
            board.lost == false,
            forall|j: int|
                0 <= j < width * height ==> #[trigger] board.uncovered@[j] == TileState::Covered,
    {
        let n = tiles.len();
        let mut uncovered: Vec<TileState> = Vec::new();
        let mut i: usize = 0;
        while i < n
            invariant
                i <= n,
                uncovered@.len() == i,
                forall|j: int| 0 <= j < i ==> #[trigger] uncovered@[j] == TileState::Covered,
            decreases n - i,
        {
            uncovered.push(TileState::Covered);
            i += 1;
        }
        let neighbors = compute_counts(&tiles, width, height);
        Board { width, height, tiles, uncovered, neighbors, lost: false }
    }

    /// Build a fresh board: every cell covered, each cell independently
    /// mined with probability one in five, and the clicked cell together
    /// with its in-bounds 8-neighbors forced free of mines, so that the
    /// first uncover cannot lose.
    pub fn new(width: u32, height: u32, click_pos: usize) -> (board: Board)
        requires
            0 < width,
            0 < height,
            width * height <= u32::MAX,
            click_pos < width * height,
        ensures
            board.well_formed(),
            board.width == width,
            board.height == height,
            board.lost == false,
            forall|j: int|
                0 <= j < width * height ==> #[trigger] board.uncovered@[j] == TileState::Covered,
            board.tiles@[click_pos as int] == Tile::Empty,
            forall|j: int|
                adjacent(width as int, height as int, click_pos as int, j)
                    ==> #[trigger] board.tiles@[j] == Tile::Empty,
    {
        let ghost w = width as int;
        let ghost h = height as int;
        let mut rng = fresh_rng();
        let n = (width * height) as usize;
        let mut tiles: Vec<Tile> = Vec::new();
        let mut i: usize = 0;
        while i < n
            invariant
                i <= n,
                tiles@.len() == i,
            decreases n - i,
        {
            let draw = rand_below(&mut rng, 5);
            tiles.push(
                if draw == 0 {
                    Tile::Mine
                } else {
                    Tile::Empty
                },
            );
            i += 1;
        }
        // Clear the clicked cell and its whole in-bounds neighborhood.
        let cr = (click_pos as u32) / width;
        let cc = (click_pos as u32) % width;
        proof {
            lemma_decompose_in_bounds(w, h, click_pos as int);
        }
        let r0 = cr as i64;
        let c0 = cc as i64;
        force_empty(&mut tiles, width, height, r0 - 1, c0 - 1);
        force_empty(&mut tiles, width, height, r0 - 1, c0);
        force_empty(&mut tiles, width, height, r0 - 1, c0 + 1);
        force_empty(&mut tiles, width, height, r0, c0 - 1);
        force_empty(&mut tiles, width, height, r0, c0);
        force_empty(&mut tiles, width, height, r0, c0 + 1);
        force_empty(&mut tiles, width, height, r0 + 1, c0 - 1);
        force_empty(&mut tiles, width, height, r0 + 1, c0);
        force_empty(&mut tiles, width, height, r0 + 1, c0 + 1);
        proof {
            assert(tiles@[click_pos as int] == Tile::Empty);
            assert forall|j: int|
                adjacent(w, h, click_pos as int, j) implies #[trigger] tiles@[j]
                == Tile::Empty by {
                lemma_decompose_in_bounds(w, h, j);
                let rj = crate::grid::row_of(w, j);
                let cj = crate::grid::col_of(w, j);
                let dr = rj - cr as int;
                let dc = cj - cc as int;
                assert(dr == -1 || dr == 0 || dr == 1);
                assert(dc == -1 || dc == 0 || dc == 1);
                assert(j == index_of(w, cr as int + dr, cc as int + dc));
            }
        }
        Self::from_tiles(width, height, tiles)
    }

    /// The dimensions are positive, their product fits the index
    /// arithmetic, and the three arrays run parallel over all cells.
    pub open spec fn grid_formed(self) -> bool {
        &&& 0 < self.width
        &&& 0 < self.height
        &&& self.width * self.height <= u32::MAX
        &&& self.tiles@.len() == self.width * self.height
        &&& self.uncovered@.len() == self.width * self.height
        &&& self.neighbors@.len() == self.width * self.height
        &&& counts_ok(self.tiles@, self.neighbors@, self.width as int, self.height as int)
    }

    /// What every operation preserves: a well-shaped grid whose loss flag
    /// agrees with the mines on display — after a loss every mine stands
    /// open, and before one no mine does.
    pub open spec fn well_formed(self) -> bool {
        &&& self.grid_formed()
        &&& self.lost ==> forall|j: int|
            0 <= j < self.tiles@.len() && #[trigger] self.tiles@[j] == Tile::Mine
                ==> self.uncovered@[j] == TileState::Uncovered
        &&& !self.lost ==> forall|j: int|
            0 <= j < self.tiles@.len() && #[trigger] self.tiles@[j] == Tile::Mine
                ==> self.uncovered@[j] != TileState::Uncovered
    }

    /// Linear, row-major index of (row, col).
    pub open spec fn spec_index(self, row: u32, col: u32) -> int {
        index_of(self.width as int, row as int, col as int)
    }

    /// The game is won when it is not lost and no cell is still covered.
    pub open spec fn spec_won(self) -> bool {
        won_spec(self.uncovered@, self.lost)
    }

    fn get_index(&self, row: u32, col: u32) -> (i: usize)
        requires
            self.width * self.height <= u32::MAX,
            row < self.height,
            col < self.width,
        ensures
            i == self.spec_index(row, col),
            i < self.width * self.height,
    {
        proof {
            lemma_index_bounds(self.width as int, self.height as int, row as int, col as int);
        }
        (row * self.width + col) as usize
    }

    /// Read-only view of the mine layout.
    pub fn tiles(&self) -> (t: &Vec<Tile>)
        ensures
            t@ == self.tiles@,
    {
        &self.tiles
    }

    /// Read-only view of the per-cell player state.
    pub fn uncovered(&self) -> (s: &Vec<TileState>)
        ensures
            s@ == self.uncovered@,
    {
        &self.uncovered
    }

    /// Read-only view of the neighbor-mine counts.
    pub fn neighbors(&self) -> (n: &Vec<u8>)
        ensures
            n@ == self.neighbors@,
    {
        &self.neighbors
    }

    /// The loss flag, verbatim.
    pub fn has_lost(&self) -> (r: bool)
        ensures
            r == self.lost,
    {
        self.lost
    }

    /// True exactly when the game is not lost and no cell is covered.
    pub fn has_won(&self) -> (r: bool)
        requires
            self.well_formed(),
        ensures
            r == self.spec_won(),
    {
        if self.lost {
            return false;
        }
        let n = self.uncovered.len();
        let mut i: usize = 0;
        while i < n
            invariant
                n == self.uncovered@.len(),
                i <= n,
                !self.lost,
                forall|j: int| 0 <= j < i ==> #[trigger] self.uncovered@[j] != TileState::Covered,
            decreases n - i,
        {
            if self.uncovered[i] == TileState::Covered {
                return false;
            }
            i += 1;
        }
        true
    }

    /// Chord at (row, col): when the cell is already open and the flags
    /// around it account for exactly its neighbor-mine count, uncover all
    /// of its in-bounds 8-neighbors in turn, row-major; otherwise do
    /// nothing. A misplaced flag can lose the game through this.
    pub fn chord(&mut self, row: u32, col: u32)
        requires
            old(self).well_formed(),
            row < old(self).height,
            col < old(self).width,
        ensures
            final(self).well_formed(),
            final(self).width == old(self).width,
            final(self).height == old(self).height,
            final(self).tiles@ == old(self).tiles@,
            final(self).neighbors@ == old(self).neighbors@,
            (old(self).uncovered@[old(self).spec_index(row, col)] != TileState::Uncovered || flags_at(
                old(self).uncovered@,
                old(self).width as int,
                old(self).height as int,
                row as int,
                col as int,
            ) != old(self).neighbors@[old(self).spec_index(row, col)]) ==> (final(self).uncovered@
                == old(self).uncovered@ && final(self).lost == old(self).lost),
            (old(self).uncovered@[old(self).spec_index(row, col)] == TileState::Uncovered && flags_at(
                old(self).uncovered@,
                old(self).width as int,
                old(self).height as int,
                row as int,
                col as int,
            ) == old(self).neighbors@[old(self).spec_index(row, col)]) ==> (final(self).uncovered@
                == chord_result(
                old(self).tiles@,
                old(self).neighbors@,
                old(self).width as int,
                old(self).height as int,
                old(self).uncovered@,
                old(self).lost,
                row as int,
                col as int,
            ).0 && final(self).lost == chord_result(
                old(self).tiles@,
                old(self).neighbors@,
                old(self).width as int,
                old(self).height as int,
                old(self).uncovered@,
                old(self).lost,
                row as int,
                col as int,
            ).1),
    {
        let ghost w = self.width as int;
        let ghost h = self.height as int;
        let ghost tiles0 = self.tiles@;
        let ghost counts0 = self.neighbors@;
        let ghost s0 = self.uncovered@;
        let ghost l0 = self.lost;
        let i = self.get_index(row, col);
        if !(self.uncovered[i] == TileState::Uncovered) {
            return;
        }
        let width = self.width;
        let height = self.height;
        let fc = count_flags_around(&self.uncovered, width, height, row, col);
        if fc != self.neighbors[i] {
            return;
        }
        let ghost q1 = reveal_step(tiles0, counts0, w, h, (s0, l0), row as int - 1, col as int - 1);
        let ghost q2 = reveal_step(tiles0, counts0, w, h, q1, row as int - 1, col as int);
        let ghost q3 = reveal_step(tiles0, counts0, w, h, q2, row as int - 1, col as int + 1);
        let ghost q4 = reveal_step(tiles0, counts0, w, h, q3, row as int, col as int - 1);
        let ghost q5 = reveal_step(tiles0, counts0, w, h, q4, row as int, col as int + 1);
        let ghost q6 = reveal_step(tiles0, counts0, w, h, q5, row as int + 1, col as int - 1);
        let ghost q7 = reveal_step(tiles0, counts0, w, h, q6, row as int + 1, col as int);
        let ghost q8 = reveal_step(tiles0, counts0, w, h, q7, row as int + 1, col as int + 1);
        if row > 0 && col > 0 {
            self.uncover_tile(row - 1, col - 1);
        }
        proof {
            assert(self.uncovered@ == q1.0 && self.lost == q1.1);
        }
        if row > 0 {
            self.uncover_tile(row - 1, col);
        }
        proof {
            assert(self.uncovered@ == q2.0 && self.lost == q2.1);
        }
        if row > 0 && col + 1 < width {
            self.uncover_tile(row - 1, col + 1);
        }
        proof {
            assert(self.uncovered@ == q3.0 && self.lost == q3.1);
        }
        if col > 0 {
            self.uncover_tile(row, col - 1);
        }
        proof {
            assert(self.uncovered@ == q4.0 && self.lost == q4.1);
        }
        if col + 1 < width {
            self.uncover_tile(row, col + 1);
        }
        proof {
            assert(self.uncovered@ == q5.0 && self.lost == q5.1);
        }
        if row + 1 < height && col > 0 {
            self.uncover_tile(row + 1, col - 1);
        }
        proof {
            assert(self.uncovered@ == q6.0 && self.lost == q6.1);
        }
        if row + 1 < height {
            self.uncover_tile(row + 1, col);
        }
        proof {
            assert(self.uncovered@ == q7.0 && self.lost == q7.1);
        }
        if row + 1 < height && col + 1 < width {
            self.uncover_tile(row + 1, col + 1);
        }
        proof {
            assert(self.uncovered@ == q8.0 && self.lost == q8.1);
            assert(q8 == chord_result(tiles0, counts0, w, h, s0, l0, row as int, col as int));
        }
    }

    /// Toggle the flag at (row, col): a covered cell gains one, a flagged
    /// cell loses one, an opened cell is left alone.
    pub fn flag_tile(&mut self, row: u32, col: u32)
        requires
            old(self).well_formed(),
            row < old(self).height,
            col < old(self).width,
        ensures
            final(self).well_formed(),
            final(self).width == old(self).width,
            final(self).height == old(self).height,
            final(self).tiles@ == old(self).tiles@,
            final(self).neighbors@ == old(self).neighbors@,
            final(self).lost == old(self).lost,
            final(self).uncovered@ == old(self).uncovered@.update(
                old(self).spec_index(row, col),
                flag_next(old(self).uncovered@[old(self).spec_index(row, col)]),
            ),
    {
        let i = self.get_index(row, col);
        let next = match self.uncovered[i] {
            TileState::Covered => TileState::Flagged,
            TileState::Uncovered => TileState::Uncovered,
            TileState::Flagged => TileState::Covered,
        };
        self.uncovered.set(i, next);
    }

    /// Open the cell at (row, col). A cell that is not covered is left
    /// alone. A covered mine opens, opens every other mine with it, and
    /// loses the game. A covered safe cell opens, and when its
    /// neighbor-mine count is zero the opening floods across the whole
    /// connected zero region and its rim.
    pub fn uncover_tile(&mut self, row: u32, col: u32)
        requires
            old(self).well_formed(),
            row < old(self).height,
            col < old(self).width,
        ensures
            final(self).well_formed(),
            final(self).width == old(self).width,
            final(self).height == old(self).height,
            final(self).tiles@ == old(self).tiles@,
            final(self).neighbors@ == old(self).neighbors@,
            final(self).uncovered@ == reveal_states(
                old(self).tiles@,
                old(self).neighbors@,
                old(self).width as int,
                old(self).height as int,
                old(self).uncovered@,
                old(self).spec_index(row, col),
            ),
            final(self).lost == reveal_lost(
                old(self).tiles@,
                old(self).uncovered@,
                old(self).lost,
                old(self).spec_index(row, col),
            ),
    {
        let ghost w = self.width as int;
        let ghost h = self.height as int;
        let i = self.get_index(row, col);
        let ghost idx = i as int;
        let ghost pre = self.uncovered@;
        let ghost counts = self.neighbors@;
        if self.uncovered[i] != TileState::Covered {
            return;
        }
        if self.tiles[i] == Tile::Mine {
            self.uncovered.set(i, TileState::Uncovered);
            self.lost = true;
            self.reveal_mines();
            proof {
                assert(self.uncovered@ =~= reveal_states(
                    self.tiles@,
                    counts,
                    w,
                    h,
                    pre,
                    idx,
                ));
            }
            return;
        }
        // A covered safe cell: open it and flood across the zero region.
        let mut stack: Vec<(u32, u32)> = Vec::new();
        let start = (row, col);
        stack.push(start);
        proof {
            lemma_floods_to_self(pre, counts, w, h, idx);
            assert(stack@[0] == start);
            assert(pair_index(w, start) == idx);
            assert(stack_has(stack@, w, idx));
        }
        while stack.len() != 0
            invariant
                self.width == old(self).width,
                self.height == old(self).height,
                self.tiles@ == old(self).tiles@,
                self.neighbors@ == old(self).neighbors@,
                self.lost == old(self).lost,
                old(self).well_formed(),
                w == self.width as int,
                h == self.height as int,
                counts == self.neighbors@,
                pre == old(self).uncovered@,
                row < self.height,
                col < self.width,
                idx == index_of(w, row as int, col as int),
                0 <= idx < w * h,
                pre[idx] == TileState::Covered,
                self.tiles@[idx] != Tile::Mine,
                self.uncovered@.len() == pre.len(),
                forall|j: int|
                    #![trigger self.uncovered@[j]]
                    0 <= j < w * h ==> (self.uncovered@[j] == pre[j] || (pre[j]
                        == TileState::Covered && self.uncovered@[j] == TileState::Uncovered
                        && floods_to(pre, counts, w, h, idx, j))),
                forall|m: int|
                    #![trigger stack@[m]]
                    0 <= m < stack@.len() ==> (in_bounds(
                        w,
                        h,
                        stack@[m].0 as int,
                        stack@[m].1 as int,
                    ) && (pre[pair_index(w, stack@[m])] == TileState::Covered ==> floods_to(
                        pre,
                        counts,
                        w,
                        h,
                        idx,
                        pair_index(w, stack@[m]),
                    ))),
                self.uncovered@[idx] == TileState::Uncovered || stack_has(stack@, w, idx),
                forall|j: int, k: int|
                    (0 <= j < w * h && pre[j] == TileState::Covered && self.uncovered@[j]
                        == TileState::Uncovered && counts[j] == 0 && #[trigger] adjacent(
                        w,
                        h,
                        j,
                        k,
                    )) ==> (self.uncovered@[k] == TileState::Uncovered || stack_has(stack@, w, k)
                        || pre[k] != TileState::Covered),
            decreases covered_count(self.uncovered@), stack@.len(),
        {
            let ghost st0 = stack@;
            let popped = stack.pop().unwrap();
            let r = popped.0;
            let c = popped.1;
            let ghost iv = pair_index(w, popped);
            proof {
                assert(popped == st0[st0.len() - 1]);
                assert(in_bounds(w, h, r as int, c as int));
                lemma_index_bounds(w, h, r as int, c as int);
                lemma_stack_has_pop(st0, w);
                lemma_covered_count_nonneg(self.uncovered@);
            }
            let pi = self.get_index(r, c);
            if self.uncovered[pi] == TileState::Covered {
                proof {
                    assert(pre[iv] == TileState::Covered);
                    assert(floods_to(pre, counts, w, h, idx, iv));
                    lemma_covered_count_update(self.uncovered@, iv);
                    lemma_covered_count_nonneg(
                        self.uncovered@.update(iv, TileState::Uncovered),
                    );
                }
                self.uncovered.set(pi, TileState::Uncovered);
                if self.neighbors[pi] == 0 {
                    let ghost st1 = stack@;
                    let width = self.width;
                    let height = self.height;
                    push_neighbors(&mut stack, width, height, r, c);
                    proof {
                        lemma_stack_has_grow(st1, stack@, w);
                        assert forall|m: int|
                            0 <= m < stack@.len() implies (in_bounds(
                            w,
                            h,
                            #[trigger] stack@[m].0 as int,
                            stack@[m].1 as int,
                        ) && (pre[pair_index(w, stack@[m])] == TileState::Covered ==> floods_to(
                            pre,
                            counts,
                            w,
                            h,
                            idx,
                            pair_index(w, stack@[m]),
                        ))) by {
                            if m < st1.len() {
                                assert(stack@[m] == st1[m]);
                                assert(st1[m] == st0[m]);
                            } else {
                                let k = pair_index(w, stack@[m]);
                                assert(adjacent(w, h, iv, k));
                                if pre[k] == TileState::Covered {
                                    lemma_floods_to_step(pre, counts, w, h, idx, iv, k);
                                }
                            }
                        }
                    }
                } else {
                    proof {
                        lemma_stack_has_grow(st0.subrange(0, st0.len() - 1), stack@, w);
                    }
                }
            } else {
                proof {
                    lemma_stack_has_grow(st0.subrange(0, st0.len() - 1), stack@, w);
                    assert(self.uncovered@[iv] == TileState::Uncovered || pre[iv]
                        != TileState::Covered);
                }
            }
        }
        proof {
            assert(!stack_has(stack@, w, idx));
            assert(self.uncovered@[idx] == TileState::Uncovered);
            assert forall|j: int|
                0 <= j < w * h && floods_to(pre, counts, w, h, idx, j)
                    implies self.uncovered@[j] == TileState::Uncovered by {
                let pth = choose|p: Seq<int>|
                    #[trigger] zero_path(pre, counts, w, h, p) && p[0] == idx && p[p.len() - 1]
                        == j;
                assert forall|j2: int, k: int|
                    (0 <= j2 < w * h && pre[j2] == TileState::Covered && self.uncovered@[j2]
                        == TileState::Uncovered && counts[j2] == 0 && #[trigger] adjacent(
                        w,
                        h,
                        j2,
                        k,
                    )) implies (self.uncovered@[k] == TileState::Uncovered || pre[k]
                    != TileState::Covered) by {
                    assert(!stack_has(stack@, w, k));
                }
                lemma_saturated_path_open(pre, counts, w, h, self.uncovered@, pth);
            }
            assert(self.uncovered@ =~= reveal_states(self.tiles@, counts, w, h, pre, idx));
            assert forall|j: int|
                0 <= j < self.tiles@.len() && #[trigger] self.tiles@[j] == Tile::Mine
                    implies (self.uncovered@[j] == pre[j]) by {
                if self.uncovered@[j] != pre[j] {
                    lemma_flood_no_mine(self.tiles@, pre, counts, w, h, idx, j);
                }
            }
        }
    }

    /// Open every mine on the board; all other cells keep their state.
    fn reveal_mines(&mut self)
        requires
            old(self).grid_formed(),
        ensures
            final(self).grid_formed(),
            final(self).width == old(self).width,
            final(self).height == old(self).height,
            final(self).tiles@ == old(self).tiles@,
            final(self).neighbors@ == old(self).neighbors@,
            final(self).lost == old(self).lost,
            final(self).uncovered@.len() == old(self).uncovered@.len(),
            forall|j: int|
                #![trigger final(self).uncovered@[j]]
                0 <= j < old(self).uncovered@.len() ==> final(self).uncovered@[j] == (if old(
                    self,
                ).tiles@[j] == Tile::Mine {
                    TileState::Uncovered
                } else {
                    old(self).uncovered@[j]
                }),
    {
        let n = self.tiles.len();
        let mut i: usize = 0;
        while i < n
            invariant
                old(self).grid_formed(),
                self.width == old(self).width,
                self.height == old(self).height,
                self.tiles@ == old(self).tiles@,
                self.neighbors@ == old(self).neighbors@,
                self.lost == old(self).lost,
                self.uncovered@.len() == old(self).uncovered@.len(),
                n == self.tiles@.len(),
                i <= n,
                self.uncovered@.len() == n,
                forall|j: int|
                    #![trigger self.uncovered@[j]]
                    0 <= j < i ==> self.uncovered@[j] == (if old(self).tiles@[j] == Tile::Mine {
                        TileState::Uncovered
                    } else {
                        old(self).uncovered@[j]
                    }),
                forall|j: int|
                    #![trigger self.uncovered@[j]]
                    i <= j < n ==> self.uncovered@[j] == old(self).uncovered@[j],
            decreases n - i,
        {
            if self.tiles[i] == Tile::Mine {
                self.uncovered.set(i, TileState::Uncovered);
            }
            i += 1;
        }
    }
}

} // verus!
