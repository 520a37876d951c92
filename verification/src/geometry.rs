//! Axis-aligned rectangles of tiles and the difference of two of them.
use vstd::prelude::*;
use crate::grid::{dims_fit, in_grid};

verus! {

/// An axis-aligned rectangle of tiles, inclusive on all sides; it is empty when
/// `x1 > x2` or `y1 > y2`.
#[derive(Debug, Clone, Copy, PartialEq, Eq)]
pub struct Rect {
    pub x1: i32,
    pub y1: i32,
    pub x2: i32,
    pub y2: i32,
}

/// Whether the square of tiles within `radius` of `center` (on each axis) has corners
/// that fit in `i32`.
pub open spec fn square_fits(center: (i32, i32), radius: i32) -> bool {
    &&& i32::MIN <= center.0 - radius <= i32::MAX
    &&& i32::MIN <= center.0 + radius <= i32::MAX
    &&& i32::MIN <= center.1 - radius <= i32::MAX
    &&& i32::MIN <= center.1 + radius <= i32::MAX
}

/// Whether some rectangle of `bands` holds tile `(x, y)`.
pub open spec fn bands_cover(bands: Seq<Rect>, x: int, y: int) -> bool {
    exists|k: int| 0 <= k < bands.len() && #[trigger] bands[k].contains(x, y)
}

impl Rect {
    /// Whether tile `(x, y)` lies in the rectangle.
    pub open spec fn contains(self, x: int, y: int) -> bool {
        self.x1 <= x <= self.x2 && self.y1 <= y <= self.y2
    }

    /// The square `[center - radius, center + radius]` on each axis.
    pub fn centered(center: (i32, i32), radius: i32) -> (r: Rect)
        requires
            square_fits(center, radius),
        ensures
            r.x1 == center.0 - radius,
            r.y1 == center.1 - radius,
            r.x2 == center.0 + radius,
            r.y2 == center.1 + radius,
    {
        Rect {
            x1: center.0 - radius,
            y1: center.1 - radius,
            x2: center.0 + radius,
            y2: center.1 + radius,
        }
    }

    /// The part of the rectangle that lies on a `w` x `h` board.
    pub fn clipped(self, w: usize, h: usize) -> (r: Rect)
        requires
            dims_fit(w, h),
        ensures
            forall|a: int, b: int|
                in_grid(w as int, h as int, a, b) ==> #[trigger] r.contains(a, b) == self.contains(a, b),
            forall|a: int, b: int| #[trigger] r.contains(a, b) ==> in_grid(w as int, h as int, a, b),
    {
        let x1: i64 = if self.x1 < 0 { 0 } else { self.x1 as i64 };
        let y1: i64 = if self.y1 < 0 { 0 } else { self.y1 as i64 };
        let x2: i64 = if (self.x2 as i64) > w as i64 - 1 { w as i64 - 1 } else { self.x2 as i64 };
        let y2: i64 = if (self.y2 as i64) > h as i64 - 1 { h as i64 - 1 } else { self.y2 as i64 };
        Rect { x1: x1 as i32, y1: y1 as i32, x2: x2 as i32, y2: y2 as i32 }
    }
}

/// The tiles `(x1, y)` to `(x1 + n - 1, y)`, left to right; none when `n <= 0`.
pub open spec fn row_run(x1: int, y: int, n: int) -> Seq<(i32, i32)> {
    Seq::new(if n > 0 { n as nat } else { 0nat }, |k: int| ((x1 + k) as i32, y as i32))
}

/// The tiles of the first `n` rows of `r`, row by row, each row left to right.
pub open spec fn rect_rows(r: Rect, n: int) -> Seq<(i32, i32)>
    decreases n,
{
    if n <= 0 {
        Seq::empty()
    } else {
        rect_rows(r, n - 1) + row_run(r.x1 as int, r.y1 + n - 1, r.x2 - r.x1 + 1)
    }
}

/// The tiles of `r`, row by row, each row left to right.
pub open spec fn rect_tiles(r: Rect) -> Seq<(i32, i32)> {
    rect_rows(r, r.y2 - r.y1 + 1)
}

/// The tiles of the first `n` rectangles of `bands`, one rectangle after another.
pub open spec fn bands_tiles(bands: Seq<Rect>, n: int) -> Seq<(i32, i32)>
    decreases n,
{
    if n <= 0 {
        Seq::empty()
    } else {
        bands_tiles(bands, n - 1) + rect_tiles(bands[n - 1])
    }
}

/// The bands of `src ∖ other` in the order [`rect_diff_bands`] gives them: `src`
/// alone when the two do not meet; otherwise the rows of `src` above the
/// intersection, the rows below it, then the columns left and right of it within
/// its rows, each replaced by an empty rectangle where there is none.
pub open spec fn diff_bands(src: Rect, other: Rect) -> Seq<Rect> {
    let ix1 = if src.x1 > other.x1 { src.x1 } else { other.x1 };
    let ix2 = if src.x2 < other.x2 { src.x2 } else { other.x2 };
    let iy1 = if src.y1 > other.y1 { src.y1 } else { other.y1 };
    let iy2 = if src.y2 < other.y2 { src.y2 } else { other.y2 };
    let none = Rect { x1: 0i32, y1: 0i32, x2: -1i32, y2: -1i32 };
    if ix1 > ix2 || iy1 > iy2 {
        seq![src]
    } else {
        seq![
            if src.y1 < iy1 { Rect { x1: src.x1, y1: src.y1, x2: src.x2, y2: (iy1 - 1) as i32 } } else { none },
            if iy2 < src.y2 { Rect { x1: src.x1, y1: (iy2 + 1) as i32, x2: src.x2, y2: src.y2 } } else { none },
            if src.x1 < ix1 { Rect { x1: src.x1, y1: iy1, x2: (ix1 - 1) as i32, y2: iy2 } } else { none },
            if ix2 < src.x2 { Rect { x1: (ix2 + 1) as i32, y1: iy1, x2: src.x2, y2: iy2 } } else { none },
        ]
    }
}

/// Splits `src ∖ other` into at most four rectangles that do not overlap: the rows
/// of `src` above and below their intersection, then the columns of `src` left and
/// right of it within the intersection's rows. Without an intersection, `src`
/// itself is the one band.
pub fn rect_diff_bands(src: Rect, other: Rect) -> (bands: Vec<Rect>)
    ensures
        bands@ == diff_bands(src, other),
        1 <= bands@.len() <= 4,
        forall|k: int, x: int, y: int|
            0 <= k < bands@.len() && #[trigger] bands@[k].contains(x, y) ==> src.contains(x, y)
                && !other.contains(x, y),
        forall|x: int, y: int|
            src.contains(x, y) && !other.contains(x, y) ==> #[trigger] bands_cover(bands@, x, y),
        forall|k1: int, k2: int, x: int, y: int|
            0 <= k1 < k2 < bands@.len() && #[trigger] bands@[k1].contains(x, y) ==> !#[trigger] bands@[k2].contains(x, y),
{
    let ix1 = if src.x1 > other.x1 { src.x1 } else { other.x1 };
    let ix2 = if src.x2 < other.x2 { src.x2 } else { other.x2 };
    let iy1 = if src.y1 > other.y1 { src.y1 } else { other.y1 };
    let iy2 = if src.y2 < other.y2 { src.y2 } else { other.y2 };
    let mut bands: Vec<Rect> = Vec::new();
    if ix1 > ix2 || iy1 > iy2 {
        bands.push(src);
        assert forall|x: int, y: int| src.contains(x, y) && !other.contains(x, y) implies #[trigger] bands_cover(bands@, x, y) by {
            assert(bands@[0].contains(x, y));
        }
        assert(bands@ =~= diff_bands(src, other));
        return bands;
    }
    let none = Rect { x1: 0, y1: 0, x2: -1, y2: -1 };
    // Top band: full width, rows above the intersection.
    if src.y1 < iy1 {
        bands.push(Rect { x1: src.x1, y1: src.y1, x2: src.x2, y2: iy1 - 1 });
    } else {
        bands.push(none);
    }
    // Bottom band: full width, rows below the intersection.
    if iy2 < src.y2 {
        bands.push(Rect { x1: src.x1, y1: iy2 + 1, x2: src.x2, y2: src.y2 });
    } else {
        bands.push(none);
    }
    // Left band: columns left of the intersection, intersection rows only.
    if src.x1 < ix1 {
        bands.push(Rect { x1: src.x1, y1: iy1, x2: ix1 - 1, y2: iy2 });
    } else {
        bands.push(none);
    }
    // Right band: columns right of the intersection, intersection rows only.
    if ix2 < src.x2 {
        bands.push(Rect { x1: ix2 + 1, y1: iy1, x2: src.x2, y2: iy2 });
    } else {
        bands.push(none);
    }
    assert forall|x: int, y: int| src.contains(x, y) && !other.contains(x, y) implies #[trigger] bands_cover(bands@, x, y) by {
        if y < iy1 {
            assert(bands@[0].contains(x, y));
        } else if y > iy2 {
            assert(bands@[1].contains(x, y));
        } else if x < ix1 {
            assert(bands@[2].contains(x, y));
        } else {
            assert(bands@[3].contains(x, y));
        }
    }
    assert(bands@ =~= diff_bands(src, other));
    bands
}

/// Whether tile `t` comes before tile `(x, y)` in row-major order.
pub open spec fn before(t: (i32, i32), x: int, y: int) -> bool {
    t.1 < y || (t.1 == y && t.0 < x)
}

/// Every tile of `src ∖ other`, each once: band by band as [`rect_diff_bands`] gives
/// them, each band row by row.
pub fn for_each_rect_diff(src: Rect, other: Rect) -> (tiles: Vec<(i32, i32)>)
    ensures
        forall|k: int|
            0 <= k < tiles@.len() ==> src.contains(#[trigger] tiles@[k].0 as int, tiles@[k].1 as int)
                && !other.contains(tiles@[k].0 as int, tiles@[k].1 as int),
        forall|x: int, y: int|
            src.contains(x, y) && !other.contains(x, y) ==> exists|k: int|
                0 <= k < tiles@.len() && #[trigger] tiles@[k] == (x as i32, y as i32),
        forall|k1: int, k2: int| 0 <= k1 < k2 < tiles@.len() ==> tiles@[k1] != tiles@[k2],
        tiles@ == bands_tiles(diff_bands(src, other), diff_bands(src, other).len() as int),
{
    let bands = rect_diff_bands(src, other);
    let mut tiles: Vec<(i32, i32)> = Vec::new();
    let mut b: usize = 0;
    while b < bands.len()
        invariant
            b <= bands@.len(),
            bands@.len() <= 4,
            forall|k: int, x: int, y: int|
                0 <= k < bands@.len() && #[trigger] bands@[k].contains(x, y) ==> src.contains(x, y)
                    && !other.contains(x, y),
            forall|x: int, y: int|
                src.contains(x, y) && !other.contains(x, y) ==> #[trigger] bands_cover(bands@, x, y),
            forall|k1: int, k2: int, x: int, y: int|
                0 <= k1 < k2 < bands@.len() && #[trigger] bands@[k1].contains(x, y) ==> !#[trigger] bands@[k2].contains(x, y),
            forall|k: int|
                0 <= k < tiles@.len() ==> bands_cover(bands@.take(b as int), #[trigger] tiles@[k].0 as int, tiles@[k].1 as int),
            forall|j: int, x: int, y: int|
                0 <= j < b && #[trigger] bands@[j].contains(x, y) ==> exists|k: int|
                    0 <= k < tiles@.len() && #[trigger] tiles@[k] == (x as i32, y as i32),
            forall|k1: int, k2: int| 0 <= k1 < k2 < tiles@.len() ==> tiles@[k1] != tiles@[k2],
            tiles@ == bands_tiles(bands@, b as int),
        decreases bands@.len() - b,
    {
        let band = bands[b];
        let ghost start = tiles@;
        let mut y: i64 = band.y1 as i64;
        while y <= band.y2 as i64
            invariant
                b < bands@.len(),
                band == bands@[b as int],
                band.y1 <= y <= band.y2 + 1 || band.y2 < band.y1,
                band.y1 <= y,
                y <= band.y2 + 1 || y == band.y1,
                tiles@ == start + rect_rows(band, y - band.y1),
                tiles@.len() >= start.len(),
                forall|k: int| 0 <= k < start.len() ==> #[trigger] tiles@[k] == start[k],
                forall|k: int|
                    0 <= k < start.len() ==> bands_cover(bands@.take(b as int), #[trigger] start[k].0 as int, start[k].1 as int),
                forall|k: int|
                    start.len() <= k < tiles@.len() ==> band.contains(#[trigger] tiles@[k].0 as int, tiles@[k].1 as int)
                        && before(tiles@[k], band.x1 as int, y as int),
                forall|x: int, yy: int|
                    band.contains(x, yy) && yy < y ==> exists|k: int|
                        start.len() <= k < tiles@.len() && #[trigger] tiles@[k] == (x as i32, yy as i32),
                forall|k1: int, k2: int| 0 <= k1 < k2 < tiles@.len() ==> tiles@[k1] != tiles@[k2],
                forall|k1: int, k2: int, x: int, yy: int|
                    0 <= k1 < k2 < bands@.len() && #[trigger] bands@[k1].contains(x, yy) ==> !#[trigger] bands@[k2].contains(x, yy),
            decreases band.y2 + 1 - y,
        {
            let mut x: i64 = band.x1 as i64;
            while x <= band.x2 as i64
                invariant
                    b < bands@.len(),
                    band == bands@[b as int],
                    band.y1 <= y <= band.y2,
                    band.x1 <= x <= band.x2 + 1 || band.x2 < band.x1,
                    band.x1 <= x,
                    x <= band.x2 + 1 || x == band.x1,
                    tiles@ == start + rect_rows(band, y - band.y1) + row_run(band.x1 as int, y as int, x - band.x1),
                    tiles@.len() >= start.len(),
                    forall|k: int| 0 <= k < start.len() ==> #[trigger] tiles@[k] == start[k],
                    forall|k: int|
                        0 <= k < start.len() ==> bands_cover(bands@.take(b as int), #[trigger] start[k].0 as int, start[k].1 as int),
                    forall|k: int|
                        start.len() <= k < tiles@.len() ==> band.contains(#[trigger] tiles@[k].0 as int, tiles@[k].1 as int)
                            && before(tiles@[k], x as int, y as int),
                    forall|xx: int, yy: int|
                        band.contains(xx, yy) && (yy < y || (yy == y && xx < x)) ==> exists|k: int|
                            start.len() <= k < tiles@.len() && #[trigger] tiles@[k] == (xx as i32, yy as i32),
                    forall|k1: int, k2: int| 0 <= k1 < k2 < tiles@.len() ==> tiles@[k1] != tiles@[k2],
                    forall|k1: int, k2: int, xx: int, yy: int|
                        0 <= k1 < k2 < bands@.len() && #[trigger] bands@[k1].contains(xx, yy) ==> !#[trigger] bands@[k2].contains(xx, yy),
                decreases band.x2 + 1 - x,
            {
                let t = (x as i32, y as i32);
                proof {
                    assert forall|k: int| 0 <= k < tiles@.len() implies tiles@[k] != t by {
                        if k < start.len() {
                            assert(bands_cover(bands@.take(b as int), start[k].0 as int, start[k].1 as int));
                            let j = choose|j: int|
                                0 <= j < bands@.take(b as int).len() && #[trigger] bands@.take(b as int)[j].contains(
                                    start[k].0 as int,
                                    start[k].1 as int,
                                );
                            assert(bands@.take(b as int)[j] == bands@[j]);
                            assert(bands@[j].contains(start[k].0 as int, start[k].1 as int));
                            assert(tiles@[k] == start[k]);
                            if tiles@[k] == t {
                                assert(start[k].0 as int == x && start[k].1 as int == y);
                                assert(bands@[b as int].contains(x as int, y as int));
                                assert(!bands@[b as int].contains(start[k].0 as int, start[k].1 as int));
                            }
                        } else {
                            assert(band.contains(tiles@[k].0 as int, tiles@[k].1 as int));
                            assert(before(tiles@[k], x as int, y as int));
                            assert(t.0 as int == x && t.1 as int == y);
                        }
                    }
                }
                let ghost prev = tiles@;
                tiles.push(t);
                proof {
                    assert forall|xx: int, yy: int|
                        band.contains(xx, yy) && (yy < y || (yy == y && xx < x + 1)) implies exists|k: int|
                            start.len() <= k < tiles@.len() && #[trigger] tiles@[k] == (xx as i32, yy as i32) by {
                        if yy == y && xx == x {
                            assert(tiles@[prev.len() as int] == (xx as i32, yy as i32));
                        } else {
                            let k = choose|k: int|
                                start.len() <= k < prev.len() && #[trigger] prev[k] == (xx as i32, yy as i32);
                            assert(tiles@[k] == prev[k]);
                        }
                    }
                    assert forall|k: int|
                        start.len() <= k < tiles@.len() implies band.contains(#[trigger] tiles@[k].0 as int, tiles@[k].1 as int)
                            && before(tiles@[k], x + 1, y as int) by {
                        if k < prev.len() {
                            assert(tiles@[k] == prev[k]);
                        }
                    }
                    let rows = rect_rows(band, y - band.y1);
                    let run = row_run(band.x1 as int, y as int, x - band.x1);
                    assert(run.push(t) =~= row_run(band.x1 as int, y as int, x + 1 - band.x1));
                    assert(tiles@ =~= start + rows + run.push(t));
                }
                x = x + 1;
            }
            proof {
                let rows = rect_rows(band, y - band.y1);
                assert(row_run(band.x1 as int, y as int, x - band.x1) =~= row_run(
                    band.x1 as int,
                    band.y1 + (y + 1 - band.y1) - 1,
                    band.x2 - band.x1 + 1,
                ));
                assert(rect_rows(band, y + 1 - band.y1) == rows + row_run(
                    band.x1 as int,
                    band.y1 + (y + 1 - band.y1) - 1,
                    band.x2 - band.x1 + 1,
                ));
                assert(tiles@ =~= start + rect_rows(band, y + 1 - band.y1));
                assert forall|k: int|
                    start.len() <= k < tiles@.len() implies band.contains(#[trigger] tiles@[k].0 as int, tiles@[k].1 as int)
                        && before(tiles@[k], band.x1 as int, y + 1) by {
                    assert(before(tiles@[k], x as int, y as int));
                }
                assert forall|xx: int, yy: int|
                    band.contains(xx, yy) && yy < y + 1 implies exists|k: int|
                        start.len() <= k < tiles@.len() && #[trigger] tiles@[k] == (xx as i32, yy as i32) by {
                    if yy == y {
                        assert(xx < x);
                    }
                }
            }
            y = y + 1;
        }
        proof {
            assert forall|k: int|
                0 <= k < tiles@.len() implies bands_cover(bands@.take(b + 1), #[trigger] tiles@[k].0 as int, tiles@[k].1 as int) by {
                if k < start.len() {
                    assert(bands_cover(bands@.take(b as int), start[k].0 as int, start[k].1 as int));
                    let j = choose|j: int|
                        0 <= j < bands@.take(b as int).len() && #[trigger] bands@.take(b as int)[j].contains(
                            start[k].0 as int,
                            start[k].1 as int,
                        );
                    assert(bands@.take(b + 1)[j] == bands@[j]);
                    assert(tiles@[k] == start[k]);
                } else {
                    assert(bands@.take(b + 1)[b as int] == band);
                }
            }
            assert forall|j: int, xx: int, yy: int|
                0 <= j < b + 1 && #[trigger] bands@[j].contains(xx, yy) implies exists|k: int|
                    0 <= k < tiles@.len() && #[trigger] tiles@[k] == (xx as i32, yy as i32) by {
                if j < b {
                    let k = choose|k: int| 0 <= k < start.len() && #[trigger] start[k] == (xx as i32, yy as i32);
                    assert(tiles@[k] == start[k]);
                } else {
                    assert(yy < y);
                }
            }
        }
        proof {
            assert(rect_rows(band, y - band.y1) =~= rect_tiles(band));
            assert(bands_tiles(bands@, b + 1) == bands_tiles(bands@, b as int) + rect_tiles(bands@[b as int]));
        }
        b = b + 1;
    }
    proof {
        assert(bands@.take(b as int) =~= bands@);
        assert forall|x: int, y: int|
            src.contains(x, y) && !other.contains(x, y) implies exists|k: int|
                0 <= k < tiles@.len() && #[trigger] tiles@[k] == (x as i32, y as i32) by {
            assert(bands_cover(bands@, x, y));
            let j = choose|j: int| 0 <= j < bands@.len() && #[trigger] bands@[j].contains(x, y);
        }
        assert forall|k: int|
            0 <= k < tiles@.len() implies src.contains(#[trigger] tiles@[k].0 as int, tiles@[k].1 as int)
                && !other.contains(tiles@[k].0 as int, tiles@[k].1 as int) by {
            assert(bands_cover(bands@, tiles@[k].0 as int, tiles@[k].1 as int));
            let j = choose|j: int|
                0 <= j < bands@.len() && #[trigger] bands@[j].contains(tiles@[k].0 as int, tiles@[k].1 as int);
        }
    }
    tiles
}

} // verus!
