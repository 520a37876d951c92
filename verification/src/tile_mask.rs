//! Sets of tiles on a `W` x `H` board, stored one flag per tile in row-major order.
use vstd::prelude::*;
use crate::grid::{dims_fit, in_grid, tile_index, tile_of, lemma_tile_index, lemma_index_tile};

verus! {

/// A set of tiles of a `W` x `H` board.
///
/// This type is the library's own board; its edge behaviour is its own choice and
/// is stated in each contract: tiles off the board never belong to a mask, so the
/// area checks count them as unset; a negative radius gives an empty square (every
/// tile of it is set, none is set); rectangles and boxes are clipped to the board.
pub struct TileMask<const W: usize, const H: usize> {
    bits: Vec<bool>,
}

/// Whether every tile of the square `[x - r, x + r] x [y - r, y + r]` belongs to `s`
/// (an empty square, `r < 0`, qualifies).
pub open spec fn square_all_in(s: Set<(int, int)>, x: int, y: int, r: int) -> bool {
    forall|tx: int, ty: int|
        x - r <= tx <= x + r && y - r <= ty <= y + r ==> #[trigger] s.contains((tx, ty))
}

/// Whether some tile of the square `[x - r, x + r] x [y - r, y + r]` belongs to `s`.
pub open spec fn square_any_in(s: Set<(int, int)>, x: int, y: int, r: int) -> bool {
    exists|tx: int, ty: int|
        x - r <= tx <= x + r && y - r <= ty <= y + r && #[trigger] s.contains((tx, ty))
}

impl<const W: usize, const H: usize> View for TileMask<W, H> {
    type V = Set<(int, int)>;

    open spec fn view(&self) -> Set<(int, int)> {
        Set::new(
            |t: (int, int)|
                in_grid(W as int, H as int, t.0, t.1) && self.flags()[tile_index(W as int, t.0, t.1)],
        )
    }
}

impl<const W: usize, const H: usize> Clone for TileMask<W, H> {
    fn clone(&self) -> (copy: Self)
        ensures
            copy.flags() == self.flags(),
            copy@ == self@,
    {
        TileMask { bits: self.bits.clone() }
    }
}

impl<const W: usize, const H: usize> Default for TileMask<W, H> {
    /// The empty set of tiles (well-formed when the board sizes can be addressed).
    fn default() -> (mask: Self)
        ensures
            dims_fit(W, H) ==> mask.wf() && mask@ == Set::<(int, int)>::empty(),
    {
        if Self::dims_ok() {
            Self::new()
        } else {
            TileMask { bits: Vec::new() }
        }
    }
}

impl<const W: usize, const H: usize> TileMask<W, H> {
    /// The flag of each tile, by row-major index.
    pub closed spec fn flags(&self) -> Seq<bool> {
        self.bits@
    }

    /// The number of tiles of the board.
    pub open spec fn size() -> int {
        W as int * H as int
    }

    /// The mask holds one flag per tile of a board whose sizes the library can address.
    pub open spec fn wf(&self) -> bool {
        dims_fit(W, H) && self.flags().len() == Self::size()
    }

    /// A tile index below the board's size belongs to the mask exactly when its flag is set.
    pub proof fn lemma_flag_at(&self, i: int)
        requires
            self.wf(),
            0 <= i < Self::size(),
        ensures
            in_grid(W as int, H as int, tile_of(W as int, i).0, tile_of(W as int, i).1),
            tile_index(W as int, tile_of(W as int, i).0, tile_of(W as int, i).1) == i,
            self@.contains(tile_of(W as int, i)) == self.flags()[i],
    {
        lemma_index_tile(W as int, H as int, i);
    }

    /// Tile `t` is on the board, belongs to the mask, and its index is below `i`.
    pub open spec fn set_before(&self, t: (i32, i32), i: int) -> bool {
        &&& in_grid(W as int, H as int, t.0 as int, t.1 as int)
        &&& 0 <= tile_index(W as int, t.0 as int, t.1 as int) < i
        &&& self.flags()[tile_index(W as int, t.0 as int, t.1 as int)]
    }

    /// Whether `W` and `H` are board sizes that the library can address.
    pub fn dims_ok() -> (ok: bool)
        ensures
            ok == dims_fit(W, H),
    {
        W <= 0x7fff_ffff && H <= 0x7fff_ffff && W.checked_mul(H).is_some()
    }

    /// The number of tiles of the board.
    pub fn tile_count() -> (n: usize)
        requires
            dims_fit(W, H),
        ensures
            n == Self::size(),
    {
        W * H
    }

    /// The empty set of tiles.
    pub fn new() -> (mask: Self)
        requires
            dims_fit(W, H),
        ensures
            mask.wf(),
            mask@ == Set::<(int, int)>::empty(),
            forall|i: int| 0 <= i < Self::size() ==> !#[trigger] mask.flags()[i],
    {
        let n = Self::tile_count();
        let mut bits: Vec<bool> = Vec::new();
        let mut i: usize = 0;
        while i < n
            invariant
                n == Self::size(),
                i <= n,
                bits@.len() == i,
                forall|j: int| 0 <= j < i ==> !#[trigger] bits@[j],
            decreases n - i,
        {
            bits.push(false);
            i = i + 1;
        }
        let mask = TileMask { bits };
        assert(mask@ =~= Set::<(int, int)>::empty()) by {
            assert forall|t: (int, int)| !mask@.contains(t) by {
                if in_grid(W as int, H as int, t.0, t.1) {
                    lemma_tile_index(W as int, H as int, t.0, t.1);
                }
            }
        }
        mask
    }

    /// Row-major index of tile `(x, y)`, or `None` off the board.
    pub fn tile_to_index(x: i32, y: i32) -> (idx: Option<usize>)
        requires
            dims_fit(W, H),
        ensures
            idx == (if in_grid(W as int, H as int, x as int, y as int) {
                Some(tile_index(W as int, x as int, y as int) as usize)
            } else {
                None
            }),
    {
        if x < 0 || y < 0 || x as usize >= W || y as usize >= H {
            None
        } else {
            proof {
                lemma_tile_index(W as int, H as int, x as int, y as int);
            }
            Some(y as usize * W + x as usize)
        }
    }

    /// The tiles of the board inside the rectangle whose corner is `(x, y)` and whose
    /// sizes are `width` and `height`; a size of zero or less gives the empty set.
    pub fn mask_rect(x: i32, y: i32, width: i32, height: i32) -> (mask: Self)
        requires
            dims_fit(W, H),
        ensures
            mask.wf(),
            mask@ == Set::new(
                |t: (int, int)|
                    in_grid(W as int, H as int, t.0, t.1) && x <= t.0 < x + width && y <= t.1 < y
                        + height,
            ),
    {
        let n = Self::tile_count();
        let x0 = x as i64;
        let y0 = y as i64;
        let x1 = x as i64 + width as i64;
        let y1 = y as i64 + height as i64;
        let mut bits: Vec<bool> = Vec::new();
        let mut i: usize = 0;
        while i < n
            invariant
                n == Self::size(),
                dims_fit(W, H),
                i <= n,
                x0 == x,
                y0 == y,
                x1 == x + width,
                y1 == y + height,
                bits@.len() == i,
                forall|j: int|
                    0 <= j < i ==> #[trigger] bits@[j] == (x <= tile_of(W as int, j).0 < x + width
                        && y <= tile_of(W as int, j).1 < y + height),
            decreases n - i,
        {
            proof {
                lemma_index_tile(W as int, H as int, i as int);
            }
            let tx = (i % W) as i64;
            let ty = (i / W) as i64;
            bits.push(x0 <= tx && tx < x1 && y0 <= ty && ty < y1);
            i = i + 1;
        }
        let mask = TileMask { bits };
        assert forall|t: (int, int)|
            mask@.contains(t) == (in_grid(W as int, H as int, t.0, t.1) && x <= t.0 < x + width && y
                <= t.1 < y + height) by {
            if in_grid(W as int, H as int, t.0, t.1) {
                lemma_tile_index(W as int, H as int, t.0, t.1);
            }
        }
        assert(mask@ =~= Set::new(
            |t: (int, int)|
                in_grid(W as int, H as int, t.0, t.1) && x <= t.0 < x + width && y <= t.1 < y
                    + height,
        ));
        mask
    }

    /// The tiles of the board inside the box from `(x1, y1)` to `(x2, y2)`, both
    /// corners included; the box is empty when `x1 > x2` or `y1 > y2`. Its flags say,
    /// index by index, whether the tile lies in the box.
    pub fn mask_box(x1: i32, y1: i32, x2: i32, y2: i32) -> (mask: Self)
        requires
            dims_fit(W, H),
        ensures
            mask.wf(),
            mask@ == Set::new(
                |t: (int, int)| in_grid(W as int, H as int, t.0, t.1) && x1 <= t.0 <= x2 && y1 <= t.1 <= y2,
            ),
            forall|i: int|
                0 <= i < Self::size() ==> #[trigger] mask.flags()[i] == (x1 <= tile_of(W as int, i).0 <= x2
                    && y1 <= tile_of(W as int, i).1 <= y2),
    {
        let n = Self::tile_count();
        let mut bits: Vec<bool> = Vec::new();
        let mut i: usize = 0;
        while i < n
            invariant
                n == Self::size(),
                dims_fit(W, H),
                i <= n,
                bits@.len() == i,
                forall|j: int|
                    0 <= j < i ==> #[trigger] bits@[j] == (x1 <= tile_of(W as int, j).0 <= x2 && y1
                        <= tile_of(W as int, j).1 <= y2),
            decreases n - i,
        {
            proof {
                lemma_index_tile(W as int, H as int, i as int);
            }
            let tx = (i % W) as i64;
            let ty = (i / W) as i64;
            bits.push(x1 as i64 <= tx && tx <= x2 as i64 && y1 as i64 <= ty && ty <= y2 as i64);
            i = i + 1;
        }
        let mask = TileMask { bits };
        assert forall|t: (int, int)|
            mask@.contains(t) == (in_grid(W as int, H as int, t.0, t.1) && x1 <= t.0 <= x2 && y1 <= t.1
                <= y2) by {
            if in_grid(W as int, H as int, t.0, t.1) {
                lemma_tile_index(W as int, H as int, t.0, t.1);
            }
        }
        assert(mask@ =~= Set::new(
            |t: (int, int)| in_grid(W as int, H as int, t.0, t.1) && x1 <= t.0 <= x2 && y1 <= t.1 <= y2,
        ));
        mask
    }

    /// Whether tile `(x, y)` belongs to the mask (never for a tile off the board).
    pub fn get(&self, x: i32, y: i32) -> (b: bool)
        requires
            self.wf(),
        ensures
            b == self@.contains((x as int, y as int)),
    {
        match Self::tile_to_index(x, y) {
            Some(i) => {
                proof {
                    lemma_tile_index(W as int, H as int, x as int, y as int);
                }
                self.bits[i]
            },
            None => false,
        }
    }

    /// The flag of the tile with row-major index `i`.
    pub fn get_index(&self, i: usize) -> (b: bool)
        requires
            self.wf(),
            i < Self::size(),
        ensures
            b == self.flags()[i as int],
            b == self@.contains(tile_of(W as int, i as int)),
    {
        proof {
            self.lemma_flag_at(i as int);
        }
        self.bits[i]
    }

    /// Sets the flag of the tile with row-major index `i` to `val`.
    pub fn set_index(&mut self, i: usize, val: bool)
        requires
            old(self).wf(),
            i < Self::size(),
        ensures
            final(self).wf(),
            final(self).flags() == old(self).flags().update(i as int, val),
            final(self)@ == (if val {
                old(self)@.insert(tile_of(W as int, i as int))
            } else {
                old(self)@.remove(tile_of(W as int, i as int))
            }),
    {
        let ghost t = tile_of(W as int, i as int);
        proof {
            lemma_index_tile(W as int, H as int, i as int);
        }
        self.bits.set(i, val);
        proof {
            let target = if val { old(self)@.insert(t) } else { old(self)@.remove(t) };
            assert forall|u: (int, int)| self@.contains(u) == target.contains(u) by {
                if in_grid(W as int, H as int, u.0, u.1) {
                    lemma_tile_index(W as int, H as int, u.0, u.1);
                }
            }
            assert(self@ =~= target);
        }
    }

    /// Adds tile `(x, y)` to the mask when `val` holds, removes it otherwise;
    /// a tile off the board leaves the mask unchanged.
    pub fn set(&mut self, x: i32, y: i32, val: bool)
        requires
            old(self).wf(),
        ensures
            final(self).wf(),
            final(self)@ == (if !in_grid(W as int, H as int, x as int, y as int) {
                old(self)@
            } else if val {
                old(self)@.insert((x as int, y as int))
            } else {
                old(self)@.remove((x as int, y as int))
            }),
    {
        match Self::tile_to_index(x, y) {
            Some(i) => {
                proof {
                    lemma_tile_index(W as int, H as int, x as int, y as int);
                }
                self.set_index(i, val);
            },
            None => {},
        }
    }

    /// Adds every tile of `other` to the mask.
    pub fn union_with(&mut self, other: &Self)
        requires
            old(self).wf(),
            other.wf(),
        ensures
            final(self).wf(),
            final(self)@ == old(self)@.union(other@),
    {
        let n = Self::tile_count();
        let mut i: usize = 0;
        while i < n
            invariant
                n == Self::size(),
                i <= n,
                self.wf(),
                other.wf(),
                forall|j: int|
                    0 <= j < n ==> #[trigger] self.flags()[j] == (if j < i {
                        old(self).flags()[j] || other.flags()[j]
                    } else {
                        old(self).flags()[j]
                    }),
            decreases n - i,
        {
            if other.bits[i] && !self.bits[i] {
                self.set_index(i, true);
            }
            i = i + 1;
        }
        assert forall|t: (int, int)| self@.contains(t) == old(self)@.union(other@).contains(t) by {
            if in_grid(W as int, H as int, t.0, t.1) {
                lemma_tile_index(W as int, H as int, t.0, t.1);
            }
        }
        assert(self@ =~= old(self)@.union(other@));
    }

    /// The tiles that belong to both masks.
    pub fn intersection(&self, other: &Self) -> (mask: Self)
        requires
            self.wf(),
            other.wf(),
        ensures
            mask.wf(),
            mask@ == self@.intersect(other@),
    {
        let n = Self::tile_count();
        let mut bits: Vec<bool> = Vec::new();
        let mut i: usize = 0;
        while i < n
            invariant
                n == Self::size(),
                i <= n,
                self.wf(),
                other.wf(),
                bits@.len() == i,
                forall|j: int| 0 <= j < i ==> #[trigger] bits@[j] == (self.flags()[j] && other.flags()[j]),
            decreases n - i,
        {
            bits.push(self.bits[i] && other.bits[i]);
            i = i + 1;
        }
        let mask = TileMask { bits };
        assert forall|t: (int, int)| mask@.contains(t) == self@.intersect(other@).contains(t) by {
            if in_grid(W as int, H as int, t.0, t.1) {
                lemma_tile_index(W as int, H as int, t.0, t.1);
            }
        }
        assert(mask@ =~= self@.intersect(other@));
        mask
    }

    /// The tiles of the board that do not belong to the mask.
    pub fn complement(&self) -> (mask: Self)
        requires
            self.wf(),
        ensures
            mask.wf(),
            mask@ == Set::new(
                |t: (int, int)| in_grid(W as int, H as int, t.0, t.1) && !self@.contains(t),
            ),
    {
        let n = Self::tile_count();
        let mut bits: Vec<bool> = Vec::new();
        let mut i: usize = 0;
        while i < n
            invariant
                n == Self::size(),
                i <= n,
                self.wf(),
                bits@.len() == i,
                forall|j: int| 0 <= j < i ==> #[trigger] bits@[j] == !self.flags()[j],
            decreases n - i,
        {
            bits.push(!self.bits[i]);
            i = i + 1;
        }
        let mask = TileMask { bits };
        let ghost target = Set::new(
            |t: (int, int)| in_grid(W as int, H as int, t.0, t.1) && !self@.contains(t),
        );
        assert forall|t: (int, int)| mask@.contains(t) == target.contains(t) by {
            if in_grid(W as int, H as int, t.0, t.1) {
                lemma_tile_index(W as int, H as int, t.0, t.1);
            }
        }
        assert(mask@ =~= target);
        mask
    }

    /// Whether the mask holds no tile.
    pub fn is_empty(&self) -> (b: bool)
        requires
            self.wf(),
        ensures
            b == (self@ == Set::<(int, int)>::empty()),
    {
        let n = Self::tile_count();
        let mut i: usize = 0;
        while i < n
            invariant
                n == Self::size(),
                i <= n,
                self.wf(),
                forall|j: int| 0 <= j < i ==> !#[trigger] self.flags()[j],
            decreases n - i,
        {
            if self.bits[i] {
                proof {
                    self.lemma_flag_at(i as int);
                    assert(self@.contains(tile_of(W as int, i as int)));
                }
                return false;
            }
            i = i + 1;
        }
        assert forall|t: (int, int)| !self@.contains(t) by {
            if in_grid(W as int, H as int, t.0, t.1) {
                lemma_tile_index(W as int, H as int, t.0, t.1);
            }
        }
        assert(self@ =~= Set::<(int, int)>::empty());
        true
    }

    /// The tiles of the mask in row-major order.
    pub fn set_tiles(&self) -> (tiles: Vec<(i32, i32)>)
        requires
            self.wf(),
        ensures
            forall|k: int|
                0 <= k < tiles@.len() ==> self@.contains(
                    (#[trigger] tiles@[k].0 as int, tiles@[k].1 as int),
                ),
            forall|t: (int, int)|
                #[trigger] self@.contains(t) ==> exists|k: int|
                    0 <= k < tiles@.len() && tiles@[k].0 == t.0 && tiles@[k].1 == t.1,
            forall|k1: int, k2: int|
                0 <= k1 < k2 < tiles@.len() ==> tile_index(
                    W as int,
                    tiles@[k1].0 as int,
                    tiles@[k1].1 as int,
                ) < tile_index(W as int, tiles@[k2].0 as int, tiles@[k2].1 as int),
    {
        let n = Self::tile_count();
        let mut tiles: Vec<(i32, i32)> = Vec::new();
        let mut i: usize = 0;
        while i < n
            invariant
                n == Self::size(),
                i <= n,
                self.wf(),
                forall|k: int| 0 <= k < tiles@.len() ==> self.set_before(#[trigger] tiles@[k], i as int),
                forall|j: int|
                    0 <= j < i && #[trigger] self.flags()[j] ==> exists|k: int|
                        0 <= k < tiles@.len() && tile_index(
                            W as int,
                            tiles@[k].0 as int,
                            tiles@[k].1 as int,
                        ) == j,
                forall|k1: int, k2: int|
                    0 <= k1 < k2 < tiles@.len() ==> tile_index(
                        W as int,
                        tiles@[k1].0 as int,
                        tiles@[k1].1 as int,
                    ) < tile_index(W as int, tiles@[k2].0 as int, tiles@[k2].1 as int),
            decreases n - i,
        {
            if self.bits[i] {
                proof {
                    lemma_index_tile(W as int, H as int, i as int);
                }
                let tx = (i % W) as i32;
                let ty = (i / W) as i32;
                assert(tx as int == tile_of(W as int, i as int).0);
                assert(ty as int == tile_of(W as int, i as int).1);
                let ghost prev = tiles@;
                tiles.push((tx, ty));
                proof {
                    let k = tiles@.len() - 1;
                    assert(tiles@[k] == (tx, ty));
                    assert(tile_index(W as int, tiles@[k].0 as int, tiles@[k].1 as int) == i);
                    assert forall|k2: int| 0 <= k2 < tiles@.len() implies self.set_before(
                        #[trigger] tiles@[k2],
                        i + 1,
                    ) by {
                        if k2 < k {
                            assert(tiles@[k2] == prev[k2]);
                            assert(self.set_before(prev[k2], i as int));
                        }
                    }
                    assert forall|j: int|
                        0 <= j < i + 1 && #[trigger] self.flags()[j] implies exists|k3: int|
                            0 <= k3 < tiles@.len() && tile_index(
                                W as int,
                                tiles@[k3].0 as int,
                                tiles@[k3].1 as int,
                            ) == j by {
                        if j < i {
                            let k3 = choose|k3: int|
                                0 <= k3 < prev.len() && tile_index(
                                    W as int,
                                    prev[k3].0 as int,
                                    prev[k3].1 as int,
                                ) == j;
                            assert(tiles@[k3] == prev[k3]);
                        } else {
                            assert(tile_index(W as int, tiles@[k].0 as int, tiles@[k].1 as int) == j);
                        }
                    }
                }
            }
            i = i + 1;
        }
        assert forall|k: int|
            0 <= k < tiles@.len() implies self@.contains(
                (#[trigger] tiles@[k].0 as int, tiles@[k].1 as int),
            ) by {
            assert(self.set_before(tiles@[k], n as int));
        }
        assert forall|t: (int, int)| #[trigger] self@.contains(t) implies exists|k: int|
            0 <= k < tiles@.len() && tiles@[k].0 == t.0 && tiles@[k].1 == t.1 by {
            lemma_tile_index(W as int, H as int, t.0, t.1);
            let j = tile_index(W as int, t.0, t.1);
            assert(self.flags()[j]);
            let k = choose|k: int|
                0 <= k < tiles@.len() && tile_index(W as int, tiles@[k].0 as int, tiles@[k].1 as int)
                    == j;
            crate::grid::lemma_tile_index_injective(
                W as int,
                H as int,
                tiles@[k].0 as int,
                tiles@[k].1 as int,
                t.0,
                t.1,
            );
        }
        tiles
    }

    /// The tiles of the mask whose index is below `n`.
    pub closed spec fn prefix_set(&self, n: nat) -> Set<(int, int)>
        decreases n,
    {
        if n == 0 {
            Set::empty()
        } else {
            let p = self.prefix_set((n - 1) as nat);
            if self.flags()[n - 1] {
                p.insert(tile_of(W as int, n - 1))
            } else {
                p
            }
        }
    }

    proof fn lemma_prefix_set(&self, n: nat)
        requires
            self.wf(),
            n <= Self::size(),
        ensures
            self.prefix_set(n).finite(),
            forall|t: (int, int)|
                #[trigger] self.prefix_set(n).contains(t) == (in_grid(W as int, H as int, t.0, t.1)
                    && tile_index(W as int, t.0, t.1) < n && self@.contains(t)),
        decreases n,
    {
        if n > 0 {
            self.lemma_prefix_set((n - 1) as nat);
            self.lemma_flag_at(n - 1);
            assert forall|t: (int, int)|
                #[trigger] self.prefix_set(n).contains(t) == (in_grid(W as int, H as int, t.0, t.1)
                    && tile_index(W as int, t.0, t.1) < n && self@.contains(t)) by {
                if in_grid(W as int, H as int, t.0, t.1) {
                    lemma_tile_index(W as int, H as int, t.0, t.1);
                }
            }
        } else {
            assert forall|t: (int, int)|
                #[trigger] self.prefix_set(n).contains(t) == (in_grid(W as int, H as int, t.0, t.1)
                    && tile_index(W as int, t.0, t.1) < n && self@.contains(t)) by {
                if in_grid(W as int, H as int, t.0, t.1) {
                    lemma_tile_index(W as int, H as int, t.0, t.1);
                }
            }
        }
    }

    /// The number of tiles in the mask.
    pub fn count_ones(&self) -> (count: usize)
        requires
            self.wf(),
        ensures
            self@.finite(),
            count == self@.len(),
    {
        let n = Self::tile_count();
        let mut count: usize = 0;
        let mut i: usize = 0;
        proof {
            self.lemma_prefix_set(0);
        }
        while i < n
            invariant
                n == Self::size(),
                i <= n,
                self.wf(),
                self.prefix_set(i as nat).finite(),
                count == self.prefix_set(i as nat).len(),
                count <= i,
            decreases n - i,
        {
            proof {
                self.lemma_prefix_set(i as nat);
                self.lemma_prefix_set((i + 1) as nat);
                self.lemma_flag_at(i as int);
                assert(!self.prefix_set(i as nat).contains(tile_of(W as int, i as int)));
            }
            if self.bits[i] {
                count = count + 1;
            }
            i = i + 1;
        }
        proof {
            self.lemma_prefix_set(n as nat);
            assert forall|t: (int, int)| self@.contains(t) == self.prefix_set(n as nat).contains(t) by {
                if in_grid(W as int, H as int, t.0, t.1) {
                    lemma_tile_index(W as int, H as int, t.0, t.1);
                }
            }
            assert(self@ =~= self.prefix_set(n as nat));
        }
        count
    }

    /// Whether every tile of the square `[x - radius, x + radius] x [y - radius, y + radius]`
    /// belongs to the mask; a square that reaches off the board does not qualify, and a
    /// negative `radius` (an empty square) does.
    pub fn is_area_all_set(&self, x: i32, y: i32, radius: i32) -> (b: bool)
        requires
            self.wf(),
        ensures
            b == square_all_in(self@, x as int, y as int, radius as int),
    {
        if radius < 0 {
            return true;
        }
        let xl = x as i64 - radius as i64;
        let xh = x as i64 + radius as i64;
        let yl = y as i64 - radius as i64;
        let yh = y as i64 + radius as i64;
        if xl < 0 {
            assert(!self@.contains((xl as int, y as int)));
            return false;
        }
        if yl < 0 {
            assert(!self@.contains((x as int, yl as int)));
            return false;
        }
        if xh >= W as i64 {
            assert(!self@.contains((xh as int, y as int)));
            return false;
        }
        if yh >= H as i64 {
            assert(!self@.contains((x as int, yh as int)));
            return false;
        }
        let mut ty: i64 = yl;
        while ty <= yh
            invariant
                self.wf(),
                yl <= ty <= yh + 1,
                xl == x - radius,
                xh == x + radius,
                yl == y - radius,
                yh == y + radius,
                0 <= xl,
                0 <= yl,
                xh < W,
                yh < H,
                forall|a: int, c: int|
                    xl <= a <= xh && yl <= c < ty ==> #[trigger] self@.contains((a, c)),
            decreases yh + 1 - ty,
        {
            let mut tx: i64 = xl;
            while tx <= xh
                invariant
                    self.wf(),
                    yl <= ty <= yh,
                    xl <= tx <= xh + 1,
                    xl == x - radius,
                    xh == x + radius,
                    yl == y - radius,
                    yh == y + radius,
                    0 <= xl,
                    0 <= yl,
                    xh < W,
                    yh < H,
                    forall|a: int, c: int|
                        xl <= a <= xh && yl <= c < ty ==> #[trigger] self@.contains((a, c)),
                    forall|a: int| xl <= a < tx ==> #[trigger] self@.contains((a, ty as int)),
                decreases xh + 1 - tx,
            {
                if !self.get(tx as i32, ty as i32) {
                    return false;
                }
                tx = tx + 1;
            }
            ty = ty + 1;
        }
        true
    }

    /// Whether some tile of the square `[x - radius, x + radius] x [y - radius, y + radius]`
    /// belongs to the mask.
    pub fn is_area_any_set(&self, x: i32, y: i32, radius: i32) -> (b: bool)
        requires
            self.wf(),
        ensures
            b == square_any_in(self@, x as int, y as int, radius as int),
    {
        if radius < 0 {
            return false;
        }
        let xl0 = x as i64 - radius as i64;
        let xh0 = x as i64 + radius as i64;
        let yl0 = y as i64 - radius as i64;
        let yh0 = y as i64 + radius as i64;
        let xl = if xl0 < 0 { 0 } else { xl0 };
        let yl = if yl0 < 0 { 0 } else { yl0 };
        let xh = if xh0 >= W as i64 { W as i64 - 1 } else { xh0 };
        let yh = if yh0 >= H as i64 { H as i64 - 1 } else { yh0 };
        let mut ty: i64 = yl;
        while ty <= yh
            invariant
                self.wf(),
                yl <= ty,
                ty <= yh + 1 || yh < yl,
                xl0 == x - radius,
                xh0 == x + radius,
                yl0 == y - radius,
                yh0 == y + radius,
                xl == (if xl0 < 0 { 0 } else { xl0 as int }),
                yl == (if yl0 < 0 { 0 } else { yl0 as int }),
                xh == (if xh0 >= W { W as int - 1 } else { xh0 as int }),
                yh == (if yh0 >= H { H as int - 1 } else { yh0 as int }),
                forall|a: int, c: int|
                    xl0 <= a <= xh0 && yl0 <= c < ty ==> !#[trigger] self@.contains((a, c)),
            decreases yh + 1 - ty,
        {
            let mut tx: i64 = xl;
            while tx <= xh
                invariant
                    self.wf(),
                    yl <= ty <= yh,
                    xl <= tx,
                    tx <= xh + 1 || xh < xl,
                    xl0 == x - radius,
                    xh0 == x + radius,
                    yl0 == y - radius,
                    yh0 == y + radius,
                    xl == (if xl0 < 0 { 0 } else { xl0 as int }),
                    yl == (if yl0 < 0 { 0 } else { yl0 as int }),
                    xh == (if xh0 >= W { W as int - 1 } else { xh0 as int }),
                    yh == (if yh0 >= H { H as int - 1 } else { yh0 as int }),
                    forall|a: int, c: int|
                        xl0 <= a <= xh0 && yl0 <= c < ty ==> !#[trigger] self@.contains((a, c)),
                    forall|a: int| xl0 <= a < tx ==> !#[trigger] self@.contains((a, ty as int)),
                decreases xh + 1 - tx,
            {
                if self.get(tx as i32, ty as i32) {
                    return true;
                }
                tx = tx + 1;
            }
            ty = ty + 1;
        }
        false
    }

    /// The tiles of the board whose whole square of the given radius belongs to the mask.
    pub fn eroded(&self, radius: i32) -> (mask: Self)
        requires
            self.wf(),
        ensures
            mask.wf(),
            mask@ == Set::new(
                |t: (int, int)|
                    in_grid(W as int, H as int, t.0, t.1) && square_all_in(self@, t.0, t.1, radius as int),
            ),
    {
        let n = Self::tile_count();
        let mut bits: Vec<bool> = Vec::new();
        let mut i: usize = 0;
        while i < n
            invariant
                n == Self::size(),
                i <= n,
                self.wf(),
                bits@.len() == i,
                forall|j: int|
                    0 <= j < i ==> #[trigger] bits@[j] == square_all_in(
                        self@,
                        tile_of(W as int, j).0,
                        tile_of(W as int, j).1,
                        radius as int,
                    ),
            decreases n - i,
        {
            proof {
                lemma_index_tile(W as int, H as int, i as int);
            }
            let tx = (i % W) as i32;
            let ty = (i / W) as i32;
            let b = self.is_area_all_set(tx, ty, radius);
            bits.push(b);
            i = i + 1;
        }
        let mask = TileMask { bits };
        let ghost target = Set::new(
            |t: (int, int)|
                in_grid(W as int, H as int, t.0, t.1) && square_all_in(self@, t.0, t.1, radius as int),
        );
        assert forall|t: (int, int)| mask@.contains(t) == target.contains(t) by {
            if in_grid(W as int, H as int, t.0, t.1) {
                lemma_tile_index(W as int, H as int, t.0, t.1);
            }
        }
        assert(mask@ =~= target);
        mask
    }
}

} // verus!
