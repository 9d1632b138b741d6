//! The mathematical model of the engine: neighbor-mine counts, zero paths
//! and flooding, and the state transformers that the board operations are
//! specified against.

use vstd::prelude::*;

use crate::grid::{adjacent, col_of, in_bounds, index_of, row_of};
use crate::grid::{lemma_decompose_in_bounds, lemma_index_bounds};
use crate::{Tile, TileState};

verus! {

/// 1 when (r, c) lies on the grid and holds a mine, else 0.
pub open spec fn mine_ind(tiles: Seq<Tile>, width: int, height: int, r: int, c: int) -> int {
    if in_bounds(width, height, r, c) && tiles[index_of(width, r, c)] == Tile::Mine {
        1int
    } else {
        0int
    }
}

/// The number of mines among the in-bounds 8-neighbors of (r, c). The
/// cell's own kind never enters the count.
pub open spec fn count_at(tiles: Seq<Tile>, width: int, height: int, r: int, c: int) -> int {
    mine_ind(tiles, width, height, r - 1, c - 1) + mine_ind(tiles, width, height, r - 1, c)
        + mine_ind(tiles, width, height, r - 1, c + 1) + mine_ind(tiles, width, height, r, c - 1)
        + mine_ind(tiles, width, height, r, c + 1) + mine_ind(tiles, width, height, r + 1, c - 1)
        + mine_ind(tiles, width, height, r + 1, c) + mine_ind(tiles, width, height, r + 1, c + 1)
}

/// The counts sequence records, for every cell of the grid, the exact
/// number of mines among its in-bounds 8-neighbors.
pub open spec fn counts_ok(tiles: Seq<Tile>, counts: Seq<u8>, width: int, height: int) -> bool {
    forall|r: int, c: int|
        in_bounds(width, height, r, c) ==> counts[index_of(width, r, c)] == #[trigger] count_at(
            tiles,
            width,
            height,
            r,
            c,
        )
}

/// A chain of covered cells, each step moving to an 8-neighbor, where
/// every cell but possibly the last has a zero neighbor-mine count. These
/// chains are exactly the routes along which one uncover call spreads.
pub open spec fn zero_path(
    states: Seq<TileState>,
    counts: Seq<u8>,
    width: int,
    height: int,
    p: Seq<int>,
) -> bool {
    &&& p.len() >= 1
    &&& forall|m: int|
        0 <= m < p.len() ==> 0 <= #[trigger] p[m] < width * height && states[p[m]]
            == TileState::Covered
    &&& forall|m: int|
        0 <= m < p.len() - 1 ==> adjacent(width, height, #[trigger] p[m], p[m + 1]) && counts[p[m]]
            == 0
}

/// Cell j is flooded from cell i: some zero path leads from i to j.
pub open spec fn floods_to(
    states: Seq<TileState>,
    counts: Seq<u8>,
    width: int,
    height: int,
    i: int,
    j: int,
) -> bool {
    exists|p: Seq<int>|
        #[trigger] zero_path(states, counts, width, height, p) && p[0] == i && p[p.len() - 1] == j
}

/// The cell states after an uncover at cell i: unchanged unless i is
/// covered; a covered mine opens every mine on the board; a covered safe
/// cell opens every cell flooded from it (itself included, and only
/// itself when its neighbor-mine count is not zero).
pub open spec fn reveal_states(
    tiles: Seq<Tile>,
    counts: Seq<u8>,
    width: int,
    height: int,
    states: Seq<TileState>,
    i: int,
) -> Seq<TileState> {
    if states[i] != TileState::Covered {
        states
    } else if tiles[i] == Tile::Mine {
        Seq::new(
            states.len(),
            |j: int|
                if tiles[j] == Tile::Mine {
                    TileState::Uncovered
                } else {
                    states[j]
                },
        )
    } else {
        Seq::new(
            states.len(),
            |j: int|
                if floods_to(states, counts, width, height, i, j) {
                    TileState::Uncovered
                } else {
                    states[j]
                },
        )
    }
}

/// Whether the game is lost after an uncover at cell i: a loss is
/// permanent, and a new one happens exactly when a covered mine is opened.
pub open spec fn reveal_lost(tiles: Seq<Tile>, states: Seq<TileState>, lost: bool, i: int) -> bool {
    lost || (states[i] == TileState::Covered && tiles[i] == Tile::Mine)
}

/// One flag toggle: covered becomes flagged, flagged becomes covered, an
/// opened cell stays opened.
pub open spec fn flag_next(s: TileState) -> TileState {
    match s {
        TileState::Covered => TileState::Flagged,
        TileState::Flagged => TileState::Covered,
        TileState::Uncovered => TileState::Uncovered,
    }
}

/// 1 when (r, c) lies on the grid and is flagged, else 0.
pub open spec fn flag_ind(states: Seq<TileState>, width: int, height: int, r: int, c: int) -> int {
    if in_bounds(width, height, r, c) && states[index_of(width, r, c)] == TileState::Flagged {
        1int
    } else {
        0int
    }
}

/// The number of flags among the in-bounds 8-neighbors of (r, c).
pub open spec fn flags_at(states: Seq<TileState>, width: int, height: int, r: int, c: int) -> int {
    flag_ind(states, width, height, r - 1, c - 1) + flag_ind(states, width, height, r - 1, c)
        + flag_ind(states, width, height, r - 1, c + 1) + flag_ind(states, width, height, r, c - 1)
        + flag_ind(states, width, height, r, c + 1) + flag_ind(states, width, height, r + 1, c - 1)
        + flag_ind(states, width, height, r + 1, c) + flag_ind(states, width, height, r + 1, c + 1)
}

/// An uncover applied at (r, c) when that position lies on the grid,
/// threading the (states, lost) pair; the identity off the grid.
pub open spec fn reveal_step(
    tiles: Seq<Tile>,
    counts: Seq<u8>,
    width: int,
    height: int,
    sl: (Seq<TileState>, bool),
    r: int,
    c: int,
) -> (Seq<TileState>, bool) {
    if in_bounds(width, height, r, c) {
        (
            reveal_states(tiles, counts, width, height, sl.0, index_of(width, r, c)),
            reveal_lost(tiles, sl.0, sl.1, index_of(width, r, c)),
        )
    } else {
        sl
    }
}

/// The states and loss flag after a chord at (r, c): each of the eight
/// neighbor positions is uncovered in turn, row-major.
pub open spec fn chord_result(
    tiles: Seq<Tile>,
    counts: Seq<u8>,
    width: int,
    height: int,
    states: Seq<TileState>,
    lost: bool,
    r: int,
    c: int,
) -> (Seq<TileState>, bool) {
    let s1 = reveal_step(tiles, counts, width, height, (states, lost), r - 1, c - 1);
    let s2 = reveal_step(tiles, counts, width, height, s1, r - 1, c);
    let s3 = reveal_step(tiles, counts, width, height, s2, r - 1, c + 1);
    let s4 = reveal_step(tiles, counts, width, height, s3, r, c - 1);
    let s5 = reveal_step(tiles, counts, width, height, s4, r, c + 1);
    let s6 = reveal_step(tiles, counts, width, height, s5, r + 1, c - 1);
    let s7 = reveal_step(tiles, counts, width, height, s6, r + 1, c);
    reveal_step(tiles, counts, width, height, s7, r + 1, c + 1)
}

/// The game is won when it is not lost and no cell is still covered.
/// Flagged cells do not stand in the way of a win.
pub open spec fn won_spec(states: Seq<TileState>, lost: bool) -> bool {
    !lost && forall|j: int| 0 <= j < states.len() ==> #[trigger] states[j] != TileState::Covered
}

/// The number of cells still covered.
pub open spec fn covered_count(states: Seq<TileState>) -> int
    decreases states.len(),
{
    if states.len() == 0 {
        0
    } else {
        covered_count(states.drop_last()) + if states.last() == TileState::Covered {
            1int
        } else {
            0int
        }
    }
}

pub proof fn lemma_covered_count_nonneg(states: Seq<TileState>)
    ensures
        covered_count(states) >= 0,
    decreases states.len(),
{
    if states.len() > 0 {
        lemma_covered_count_nonneg(states.drop_last());
    }
}

/// Opening a covered cell lowers the covered count by one.
pub proof fn lemma_covered_count_update(states: Seq<TileState>, j: int)
    requires
        0 <= j < states.len(),
        states[j] == TileState::Covered,
    ensures
        covered_count(states.update(j, TileState::Uncovered)) == covered_count(states) - 1,
    decreases states.len(),
{
    let s2 = states.update(j, TileState::Uncovered);
    if j == states.len() - 1 {
        assert(s2.drop_last() =~= states.drop_last());
    } else {
        lemma_covered_count_update(states.drop_last(), j);
        assert(s2.drop_last() =~= states.drop_last().update(j, TileState::Uncovered));
        assert(s2.last() == states.last());
    }
}

/// A zero path still on a cell with a zero count extends to any covered
/// neighbor of its last cell.
pub proof fn lemma_zero_path_extend(
    states: Seq<TileState>,
    counts: Seq<u8>,
    width: int,
    height: int,
    p: Seq<int>,
    k: int,
)
    requires
        zero_path(states, counts, width, height, p),
        counts[p[p.len() - 1]] == 0,
        adjacent(width, height, p[p.len() - 1], k),
        0 <= k < width * height,
        states[k] == TileState::Covered,
    ensures
        zero_path(states, counts, width, height, p.push(k)),
        p.push(k)[0] == p[0],
        p.push(k)[p.push(k).len() - 1] == k,
{
    let q = p.push(k);
    assert forall|m: int| 0 <= m < q.len() implies 0 <= #[trigger] q[m] < width * height && states[q[m]]
        == TileState::Covered by {
        if m < p.len() {
            assert(q[m] == p[m]);
        } else {
            assert(q[m] == k);
        }
    }
    assert forall|m: int| 0 <= m < q.len() - 1 implies adjacent(width, height, #[trigger] q[m], q[m + 1])
        && counts[q[m]] == 0 by {
        assert(q[m] == p[m]);
        if m < p.len() - 1 {
            assert(q[m + 1] == p[m + 1]);
        } else {
            assert(m == p.len() - 1);
            assert(q[m + 1] == k);
        }
    }
}

/// A covered cell floods to itself.
pub proof fn lemma_floods_to_self(
    states: Seq<TileState>,
    counts: Seq<u8>,
    width: int,
    height: int,
    i: int,
)
    requires
        0 <= i < width * height,
        states[i] == TileState::Covered,
    ensures
        floods_to(states, counts, width, height, i, i),
{
    let p: Seq<int> = seq![i];
    assert(zero_path(states, counts, width, height, p));
    assert(p[0] == i && p[p.len() - 1] == i);
}

/// Flooding takes one more step across a zero-count cell.
pub proof fn lemma_floods_to_step(
    states: Seq<TileState>,
    counts: Seq<u8>,
    width: int,
    height: int,
    i: int,
    j: int,
    k: int,
)
    requires
        floods_to(states, counts, width, height, i, j),
        counts[j] == 0,
        adjacent(width, height, j, k),
        0 <= k < width * height,
        states[k] == TileState::Covered,
    ensures
        floods_to(states, counts, width, height, i, k),
{
    let p = choose|p: Seq<int>|
        #[trigger] zero_path(states, counts, width, height, p) && p[0] == i && p[p.len() - 1] == j;
    lemma_zero_path_extend(states, counts, width, height, p, k);
}

/// A cell whose neighbor-mine count is zero has no mine on any adjacent
/// cell.
pub proof fn lemma_zero_count_no_adjacent_mine(
    tiles: Seq<Tile>,
    counts: Seq<u8>,
    width: int,
    height: int,
    i: int,
    j: int,
)
    requires
        0 < width,
        0 < height,
        tiles.len() == width * height,
        counts.len() == width * height,
        counts_ok(tiles, counts, width, height),
        0 <= i < width * height,
        counts[i] == 0,
        adjacent(width, height, i, j),
    ensures
        tiles[j] != Tile::Mine,
{
    let r = row_of(width, i);
    let c = col_of(width, i);
    lemma_decompose_in_bounds(width, height, i);
    let rj = row_of(width, j);
    let cj = col_of(width, j);
    lemma_decompose_in_bounds(width, height, j);
    if tiles[j] == Tile::Mine {
        let dr = rj - r;
        let dc = cj - c;
        assert(dr == -1 || dr == 0 || dr == 1);
        assert(dc == -1 || dc == 0 || dc == 1);
        assert(!(dr == 0 && dc == 0));
        assert(in_bounds(width, height, rj, cj) && tiles[index_of(width, rj, cj)] == Tile::Mine);
        assert(mine_ind(tiles, width, height, rj, cj) == 1);
        assert(count_at(tiles, width, height, r, c) >= 1);
        assert(counts[index_of(width, r, c)] == count_at(tiles, width, height, r, c));
        assert(false);
    }
}

/// A flooded cell never holds a mine, provided the counts are consistent
/// and the starting cell is no mine.
pub proof fn lemma_flood_no_mine(
    tiles: Seq<Tile>,
    states: Seq<TileState>,
    counts: Seq<u8>,
    width: int,
    height: int,
    i: int,
    j: int,
)
    requires
        0 < width,
        0 < height,
        tiles.len() == width * height,
        counts.len() == width * height,
        counts_ok(tiles, counts, width, height),
        0 <= i < width * height,
        tiles[i] != Tile::Mine,
        floods_to(states, counts, width, height, i, j),
    ensures
        tiles[j] != Tile::Mine,
{
    let p = choose|p: Seq<int>|
        #[trigger] zero_path(states, counts, width, height, p) && p[0] == i && p[p.len() - 1] == j;
    if p.len() == 1 {
        assert(j == i);
    } else {
        let n = p.len() - 1;
        assert(adjacent(width, height, p[n - 1], p[n]) && counts[p[n - 1]] == 0);
        lemma_zero_count_no_adjacent_mine(tiles, counts, width, height, p[n - 1], j);
    }
}

/// Once a flood has saturated (every opened zero-count cell has each of
/// its still-coverable neighbors opened), every cell on a zero path from
/// an opened cell is itself opened.
pub proof fn lemma_saturated_path_open(
    pre: Seq<TileState>,
    counts: Seq<u8>,
    width: int,
    height: int,
    cur: Seq<TileState>,
    p: Seq<int>,
)
    requires
        pre.len() == width * height,
        cur.len() == width * height,
        zero_path(pre, counts, width, height, p),
        cur[p[0]] == TileState::Uncovered,
        forall|j: int|
            #![trigger cur[j]]
            0 <= j < width * height ==> cur[j] == pre[j] || (pre[j] == TileState::Covered && cur[j]
                == TileState::Uncovered),
        forall|j: int, k: int|
            (0 <= j < width * height && pre[j] == TileState::Covered && cur[j]
                == TileState::Uncovered && counts[j] == 0 && #[trigger] adjacent(
                width,
                height,
                j,
                k,
            )) ==> cur[k] == TileState::Uncovered || pre[k] != TileState::Covered,
    ensures
        cur[p[p.len() - 1]] == TileState::Uncovered,
    decreases p.len(),
{
    if p.len() > 1 {
        assert(adjacent(width, height, p[0], p[1]) && counts[p[0]] == 0);
        assert(cur[p[1]] == TileState::Uncovered || pre[p[1]] != TileState::Covered);
        assert(cur[p[1]] == TileState::Uncovered);
        let q = p.subrange(1, p.len() as int);
        assert forall|m: int| 0 <= m < q.len() implies 0 <= #[trigger] q[m] < width * height
            && pre[q[m]] == TileState::Covered by {
            assert(q[m] == p[m + 1]);
        }
        assert forall|m: int| 0 <= m < q.len() - 1 implies adjacent(
            width,
            height,
            #[trigger] q[m],
            q[m + 1],
        ) && counts[q[m]] == 0 by {
            assert(q[m] == p[m + 1]);
            assert(q[m + 1] == p[m + 2]);
        }
        assert(zero_path(pre, counts, width, height, q));
        assert(q[0] == p[1]);
        lemma_saturated_path_open(pre, counts, width, height, cur, q);
        assert(q[q.len() - 1] == p[p.len() - 1]);
    }
}

} // verus!
