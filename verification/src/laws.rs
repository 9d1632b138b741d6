//! The engine's laws: properties that relate several operations or hold
//! of every state, stated over the same model the operations' contracts
//! use, and proved once and for all.

use vstd::prelude::*;

use crate::board::Board;
use crate::model::{
    chord_result, counts_ok, floods_to, lemma_flood_no_mine, lemma_floods_to_self, reveal_lost,
    reveal_states, won_spec,
};
use crate::{Tile, TileState};

verus! {

/// Idempotence: uncovering the same cell twice, with nothing in between,
/// leaves exactly the state and loss flag that one uncover produces.
pub proof fn lemma_uncover_idempotent(
    tiles: Seq<Tile>,
    counts: Seq<u8>,
    width: int,
    height: int,
    states: Seq<TileState>,
    lost: bool,
    i: int,
)
    requires
        0 < width,
        0 < height,
        tiles.len() == width * height,
        states.len() == width * height,
        0 <= i < width * height,
    ensures
        reveal_states(
            tiles,
            counts,
            width,
            height,
            reveal_states(tiles, counts, width, height, states, i),
            i,
        ) == reveal_states(tiles, counts, width, height, states, i),
        reveal_lost(
            tiles,
            reveal_states(tiles, counts, width, height, states, i),
            reveal_lost(tiles, states, lost, i),
            i,
        ) == reveal_lost(tiles, states, lost, i),
{
    let s1 = reveal_states(tiles, counts, width, height, states, i);
    if states[i] == TileState::Covered {
        if tiles[i] == Tile::Mine {
            assert(s1[i] == TileState::Uncovered);
        } else {
            lemma_floods_to_self(states, counts, width, height, i);
            assert(s1[i] == TileState::Uncovered);
        }
    }
    assert(s1[i] != TileState::Covered);
}

/// Flood-fill soundness, reach: when a covered safe cell is uncovered,
/// every cell joined to it by a zero path is uncovered with it.
pub proof fn lemma_flood_reaches(
    tiles: Seq<Tile>,
    counts: Seq<u8>,
    width: int,
    height: int,
    states: Seq<TileState>,
    i: int,
    j: int,
)
    requires
        0 < width,
        0 < height,
        states.len() == width * height,
        0 <= i < width * height,
        states[i] == TileState::Covered,
        tiles[i] != Tile::Mine,
        floods_to(states, counts, width, height, i, j),
    ensures
        reveal_states(tiles, counts, width, height, states, i)[j] == TileState::Uncovered,
{
}

/// Flood-fill soundness, safety: uncovering a safe cell never opens a
/// mine, wherever the flood spreads.
pub proof fn lemma_flood_spares_mines(
    tiles: Seq<Tile>,
    counts: Seq<u8>,
    width: int,
    height: int,
    states: Seq<TileState>,
    i: int,
    j: int,
)
    requires
        0 < width,
        0 < height,
        tiles.len() == width * height,
        counts.len() == width * height,
        states.len() == width * height,
        counts_ok(tiles, counts, width, height),
        0 <= i < width * height,
        0 <= j < width * height,
        tiles[i] != Tile::Mine,
        tiles[j] == Tile::Mine,
    ensures
        reveal_states(tiles, counts, width, height, states, i)[j] == states[j],
{
    if states[i] == TileState::Covered {
        if floods_to(states, counts, width, height, i, j) {
            lemma_flood_no_mine(tiles, states, counts, width, height, i, j);
        }
    }
}

/// Loss terminality: a lost game stays lost through any further uncover.
pub proof fn lemma_loss_terminal_uncover(tiles: Seq<Tile>, states: Seq<TileState>, i: int)
    ensures
        reveal_lost(tiles, states, true, i),
{
}

/// Loss terminality: a lost game stays lost through any chord.
pub proof fn lemma_loss_terminal_chord(
    tiles: Seq<Tile>,
    counts: Seq<u8>,
    width: int,
    height: int,
    states: Seq<TileState>,
    r: int,
    c: int,
)
    ensures
        chord_result(tiles, counts, width, height, states, true, r, c).1,
{
}

/// Loss terminality: in every well-formed lost board each mine stands
/// open. The operations' contracts keep `well_formed`, so this holds
/// from the moment of the loss on.
pub proof fn lemma_lost_shows_mines(b: Board, j: int)
    requires
        b.well_formed(),
        b.lost,
        0 <= j < b.tiles@.len(),
        b.tiles@[j] == Tile::Mine,
    ensures
        b.uncovered@[j] == TileState::Uncovered,
{
}

/// Win condition: a cell still covered rules a win out, whatever else was
/// flagged — in particular, flagging every mine does not by itself win.
pub proof fn lemma_covered_blocks_win(states: Seq<TileState>, lost: bool, j: int)
    requires
        0 <= j < states.len(),
        states[j] == TileState::Covered,
    ensures
        !won_spec(states, lost),
{
}

/// Win and loss exclude each other.
pub proof fn lemma_won_not_lost(states: Seq<TileState>, lost: bool)
    requires
        won_spec(states, lost),
    ensures
        !lost,
{
}

} // verus!
