//! Tile coordinates on a `W` x `H` board and their row-major indices.
use vstd::prelude::*;
use vstd::arithmetic::div_mod::{lemma_fundamental_div_mod, lemma_fundamental_div_mod_converse};

verus! {

/// The board sizes that the library can address: every coordinate fits in an
/// `i32` and every tile index fits in a `usize`.
pub open spec fn dims_fit(w: usize, h: usize) -> bool {
    &&& w <= 0x7fff_ffff
    &&& h <= 0x7fff_ffff
    &&& w * h <= usize::MAX
}

/// Whether tile `(x, y)` lies on a `w` x `h` board.
pub open spec fn in_grid(w: int, h: int, x: int, y: int) -> bool {
    0 <= x < w && 0 <= y < h
}

/// Row-major index of tile `(x, y)` on a board `w` tiles wide.
pub open spec fn tile_index(w: int, x: int, y: int) -> int {
    y * w + x
}

/// The tile whose row-major index is `i` on a board `w` tiles wide.
pub open spec fn tile_of(w: int, i: int) -> (int, int) {
    (i % w, i / w)
}

/// Every tile on the board has an index below `w * h`, and that index leads back to it.
pub proof fn lemma_tile_index(w: int, h: int, x: int, y: int)
    requires
        in_grid(w, h, x, y),
    ensures
        0 <= tile_index(w, x, y) < w * h,
        tile_of(w, tile_index(w, x, y)) == (x, y),
{
    assert(0 <= y * w + x < w * h) by (nonlinear_arith)
        requires
            0 <= x < w,
            0 <= y < h,
    ;
    lemma_fundamental_div_mod_converse(y * w + x, w, y, x);
}

/// Every index below `w * h` names a tile on the board, whose index it is.
pub proof fn lemma_index_tile(w: int, h: int, i: int)
    requires
        0 <= i < w * h,
        0 <= w,
        0 <= h,
    ensures
        0 < w,
        0 < h,
        in_grid(w, h, tile_of(w, i).0, tile_of(w, i).1),
        tile_index(w, tile_of(w, i).0, tile_of(w, i).1) == i,
{
    assert(0 < w && 0 < h) by (nonlinear_arith)
        requires
            0 <= i < w * h,
            0 <= w,
            0 <= h,
    ;
    lemma_fundamental_div_mod(i, w);
    let q = i / w;
    let r = i % w;
    assert(0 <= r < w);
    assert(i == w * q + r);
    assert(0 <= q < h) by (nonlinear_arith)
        requires
            i == w * q + r,
            0 <= r < w,
            0 <= i < w * h,
            0 < w,
    ;
    assert(q * w == w * q) by (nonlinear_arith);
}

/// Distinct tiles of the board have distinct indices.
pub proof fn lemma_tile_index_injective(w: int, h: int, x1: int, y1: int, x2: int, y2: int)
    requires
        in_grid(w, h, x1, y1),
        in_grid(w, h, x2, y2),
        tile_index(w, x1, y1) == tile_index(w, x2, y2),
    ensures
        x1 == x2,
        y1 == y2,
{
    lemma_tile_index(w, h, x1, y1);
    lemma_tile_index(w, h, x2, y2);
}

} // verus!
