//! Row-major grid geometry: the mapping between (row, col) coordinates and
//! linear cell indices, and the 8-neighborhood relation between cells.

use vstd::prelude::*;

verus! {

/// Row of linear index `i` on a grid `width` cells wide.
pub open spec fn row_of(width: int, i: int) -> int {
    i / width
}

/// Column of linear index `i` on a grid `width` cells wide.
pub open spec fn col_of(width: int, i: int) -> int {
    i % width
}

/// (r, c) lies on the grid.
pub open spec fn in_bounds(width: int, height: int, r: int, c: int) -> bool {
    0 <= r < height && 0 <= c < width
}

/// Linear, row-major index of (r, c).
pub open spec fn index_of(width: int, r: int, c: int) -> int {
    r * width + c
}

/// i and j are distinct cells of the grid whose rows and columns each
/// differ by at most one: j is one of the up-to-8 neighbors of i.
pub open spec fn adjacent(width: int, height: int, i: int, j: int) -> bool {
    &&& 0 <= i < width * height
    &&& 0 <= j < width * height
    &&& i != j
    &&& -1 <= row_of(width, i) - row_of(width, j) <= 1
    &&& -1 <= col_of(width, i) - col_of(width, j) <= 1
}

/// The index of an in-bounds cell decomposes back into its row and column.
pub proof fn lemma_index_decompose(width: int, r: int, c: int)
    requires
        0 < width,
        0 <= r,
        0 <= c < width,
    ensures
        row_of(width, index_of(width, r, c)) == r,
        col_of(width, index_of(width, r, c)) == c,
{
    vstd::arithmetic::div_mod::lemma_fundamental_div_mod_converse(r * width + c, width, r, c);
}

/// The index of an in-bounds cell lies within the grid's cell count.
pub proof fn lemma_index_bounds(width: int, height: int, r: int, c: int)
    requires
        in_bounds(width, height, r, c),
    ensures
        0 <= index_of(width, r, c) < width * height,
{
    assert(0 <= r * width + c < width * height) by (nonlinear_arith)
        requires
            0 <= r < height,
            0 <= c < width,
    ;
}

/// Indices are ordered row-major: a cell of an earlier row, or of the same
/// row and an earlier column, has the smaller index.
pub proof fn lemma_index_order(width: int, r1: int, c1: int, r2: int, c2: int)
    requires
        0 <= c1 < width,
        0 <= c2 < width,
        0 <= r1,
        r1 < r2 || (r1 == r2 && c1 < c2),
    ensures
        index_of(width, r1, c1) < index_of(width, r2, c2),
{
    assert(r1 * width + c1 < r2 * width + c2) by (nonlinear_arith)
        requires
            0 <= c1 < width,
            0 <= c2 < width,
            0 <= r1,
            r1 < r2 || (r1 == r2 && c1 < c2),
    ;
}

/// A linear index within the grid decomposes into an in-bounds row and
/// column that map back to it.
pub proof fn lemma_decompose_in_bounds(width: int, height: int, i: int)
    requires
        0 < width,
        0 < height,
        0 <= i < width * height,
    ensures
        in_bounds(width, height, row_of(width, i), col_of(width, i)),
        index_of(width, row_of(width, i), col_of(width, i)) == i,
{
    vstd::arithmetic::div_mod::lemma_fundamental_div_mod(i, width);
    vstd::arithmetic::div_mod::lemma_mod_bound(i, width);
    let q = i / width;
    assert(i == width * q + i % width);
    assert(q * width == width * q) by (nonlinear_arith);
    assert(0 <= q && q < height) by (nonlinear_arith)
        requires
            0 < width,
            0 < height,
            0 <= i < width * height,
            i == width * q + i % width,
            0 <= i % width < width,
    ;
}

/// Two distinct in-bounds cells whose rows and columns each differ by at
/// most one are adjacent as linear indices.
pub proof fn lemma_rc_adjacent(width: int, height: int, r1: int, c1: int, r2: int, c2: int)
    requires
        in_bounds(width, height, r1, c1),
        in_bounds(width, height, r2, c2),
        !(r1 == r2 && c1 == c2),
        -1 <= r1 - r2 <= 1,
        -1 <= c1 - c2 <= 1,
    ensures
        adjacent(width, height, index_of(width, r1, c1), index_of(width, r2, c2)),
{
    lemma_index_bounds(width, height, r1, c1);
    lemma_index_bounds(width, height, r2, c2);
    lemma_index_decompose(width, r1, c1);
    lemma_index_decompose(width, r2, c2);
    if index_of(width, r1, c1) == index_of(width, r2, c2) {
        assert(r1 == r2 && c1 == c2);
    }
}

} // verus!
