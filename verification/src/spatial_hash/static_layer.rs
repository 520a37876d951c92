//! Static layers (terrain and the like) and their cached erosions.
use vstd::prelude::*;
use crate::entity_id::EntityId;
use crate::grid::in_grid;
use crate::tile_mask::{TileMask, square_all_in, square_any_in};
use super::{SpatialHash, erosion};

verus! {

/// The radii for which `is_static_area_all_set` uses precomputed erosions: element `r`
/// of this array stands for `eroded_layers[layer][r - 1]` (radius 0 reads the layer
/// itself and has no entry here).
pub const CACHED_EROSION_RADII: [i32; 2] = [1, 2];

impl<ID: EntityId, const W: usize, const H: usize, const E: usize, const S: usize> SpatialHash<
    ID,
    W,
    H,
    E,
    S,
> {
    /// Returns static layer `layer_idx`.
    pub fn static_layer(&self, layer_idx: usize) -> (board: &TileMask<W, H>)
        requires
            self.wf(),
            layer_idx < S,
        ensures
            *board == self.static_board(layer_idx as int),
            board.wf(),
    {
        &self.static_layers[layer_idx]
    }

    /// Replaces static layer `layer_idx` with `board`, rebuilds its erosion caches
    /// (radius 1 and 2) and records `revision`.
    ///
    /// `revision` is a change-detection token passed in by the caller (typically from a
    /// monotonically increasing source); only `!=` comparisons of it are meaningful.
    /// An index `layer_idx >= S` is silently ignored.
    pub fn full_sync_static_layer(&mut self, layer_idx: usize, board: &TileMask<W, H>, revision: u32)
        requires
            old(self).wf(),
            board.wf(),
        ensures
            final(self).wf(),
            layer_idx >= S ==> *final(self) == *old(self),
            layer_idx < S ==> {
                &&& final(self).static_board(layer_idx as int)@ == board@
                &&& final(self).synced_layer(layer_idx as int) == board@
                &&& final(self).revision() == revision
                &&& forall|l: int|
                    0 <= l < S && l != layer_idx ==> #[trigger] final(self).static_board(l) == old(
                        self,
                    ).static_board(l) && final(self).synced_layer(l) == old(self).synced_layer(l)
                &&& forall|i: int| 0 <= i < Self::size() ==> #[trigger] final(self).cell(i) == old(self).cell(i)
                &&& forall|k: int, i: int|
                    0 <= k < E && 0 <= i < Self::size() ==> #[trigger] final(self).kind_flag(k, i)
                        == old(self).kind_flag(k, i)
                &&& final(self).entities() == old(self).entities()
            },
    {
        if layer_idx >= S {
            return;
        }
        let copy = board.clone();
        self.static_layers.set(layer_idx, copy);
        let eroded1 = board.eroded(1);
        let eroded2 = board.eroded(2);
        assert(eroded1@ =~= erosion(W, H, board@, 1));
        assert(eroded2@ =~= erosion(W, H, board@, 2));
        let mut pair: Vec<TileMask<W, H>> = Vec::new();
        pair.push(eroded1);
        pair.push(eroded2);
        let ghost pv = pair@;
        self.eroded_layers.set(layer_idx, pair);
        self.synced = Ghost(self.synced@.update(layer_idx as int, board@));
        self.static_revision = revision;
        proof {
            assert(self.eroded_layers@[layer_idx as int]@ == pv);
            assert forall|l: int| 0 <= l < S implies #[trigger] self.static_layers@[l].wf() by {
                if l != layer_idx {
                    assert(self.static_layers@[l] == old(self).static_layers@[l]);
                }
            }
            assert forall|l: int|
                0 <= l < S implies {
                    &&& #[trigger] self.eroded_layers@[l]@.len() == 2
                    &&& self.eroded_layers@[l]@[0].wf()
                    &&& self.eroded_layers@[l]@[1].wf()
                    &&& self.eroded_layers@[l]@[0]@ == erosion(W, H, self.synced@[l], 1)
                    &&& self.eroded_layers@[l]@[1]@ == erosion(W, H, self.synced@[l], 2)
                } by {
                if l != layer_idx {
                    assert(self.eroded_layers@[l] == old(self).eroded_layers@[l]);
                    assert(self.synced@[l] == old(self).synced@[l]);
                }
            }
            assert forall|i: int| 0 <= i < Self::size() implies #[trigger] self.presence.flags()[i] == (self.cell(i).len() > 0) by {
                assert(self.cell(i) == old(self).cell(i));
            }
            assert forall|i: int, j: int|
                0 <= i < Self::size() && 0 <= j < self.cell(i).len() implies {
                    &&& #[trigger] self.cell(i)[j].1 < E
                    &&& self.kind_boards@[self.cell(i)[j].1 as int].flags()[i]
                    &&& ID::is_key(self.cell(i)[j].0)
                } by {
                assert(self.cell(i) == old(self).cell(i));
            }
            assert(self.entities() == old(self).entities());
            assert(self.wf());
        }
    }

    /// Sets or clears one tile of static layer `layer_idx` and records `revision`.
    ///
    /// The erosion caches are left as they are: until the next
    /// [`full_sync_static_layer`](Self::full_sync_static_layer), `is_static_area_all_set`
    /// with radius 1 or 2 still answers from the layer as that sync copied it.
    /// An index `layer_idx >= S` is silently ignored.
    pub fn update_static_tile(&mut self, layer_idx: usize, x: i32, y: i32, val: bool, revision: u32)
        requires
            old(self).wf(),
        ensures
            final(self).wf(),
            layer_idx >= S ==> *final(self) == *old(self),
            layer_idx < S ==> {
                &&& final(self).static_board(layer_idx as int)@ == (if !in_grid(
                    W as int,
                    H as int,
                    x as int,
                    y as int,
                ) {
                    old(self).static_board(layer_idx as int)@
                } else if val {
                    old(self).static_board(layer_idx as int)@.insert((x as int, y as int))
                } else {
                    old(self).static_board(layer_idx as int)@.remove((x as int, y as int))
                })
                &&& final(self).revision() == revision
                &&& forall|l: int|
                    0 <= l < S ==> #[trigger] final(self).synced_layer(l) == old(self).synced_layer(l)
                &&& forall|l: int|
                    0 <= l < S && l != layer_idx ==> #[trigger] final(self).static_board(l) == old(
                        self,
                    ).static_board(l)
                &&& forall|i: int| 0 <= i < Self::size() ==> #[trigger] final(self).cell(i) == old(self).cell(i)
                &&& forall|k: int, i: int|
                    0 <= k < E && 0 <= i < Self::size() ==> #[trigger] final(self).kind_flag(k, i)
                        == old(self).kind_flag(k, i)
                &&& final(self).entities() == old(self).entities()
            },
    {
        if layer_idx < S {
            self.static_layers[layer_idx].set(x, y, val);
            self.static_revision = revision;
            proof {
                assert forall|l: int| 0 <= l < S implies #[trigger] self.static_layers@[l].wf() by {
                    if l != layer_idx {
                        assert(self.static_layers@[l] == old(self).static_layers@[l]);
                    }
                }
                assert forall|i: int| 0 <= i < Self::size() implies #[trigger] self.presence.flags()[i] == (self.cell(i).len() > 0) by {
                    assert(self.cell(i) == old(self).cell(i));
                }
                assert forall|i: int, j: int|
                    0 <= i < Self::size() && 0 <= j < self.cell(i).len() implies {
                        &&& #[trigger] self.cell(i)[j].1 < E
                        &&& self.kind_boards@[self.cell(i)[j].1 as int].flags()[i]
                        &&& ID::is_key(self.cell(i)[j].0)
                    } by {
                    assert(self.cell(i) == old(self).cell(i));
                }
                assert(self.entities() == old(self).entities());
                assert(self.wf());
            }
        }
    }

    /// The change-detection token recorded by the last static-layer update.
    pub fn static_revision(&self) -> (revision: u32)
        ensures
            revision == self.revision(),
    {
        self.static_revision
    }

    /// What [`is_static_area_all_set`](Self::is_static_area_all_set) answers for layer
    /// `l` and the square of radius `r` around `(x, y)`: radius 0 reads the layer
    /// itself, radii 1 and 2 read the layer as the last full sync copied it, other
    /// radii read the layer; an index out of range gives `false`.
    pub open spec fn static_all_answer(&self, l: int, x: int, y: int, r: int) -> bool {
        if !(0 <= l < S) {
            false
        } else if r == 0 {
            self.static_board(l)@.contains((x, y))
        } else if r == 1 || r == 2 {
            in_grid(W as int, H as int, x, y) && square_all_in(self.synced_layer(l), x, y, r)
        } else {
            square_all_in(self.static_board(l)@, x, y, r)
        }
    }

    /// For every radius but the cached 1 and 2, the walkability check answers from the
    /// current layer, whether or not it changed since its last full sync: every tile
    /// of the square is set in it.
    pub proof fn lemma_uncached_answer(&self, l: int, x: int, y: int, r: int)
        requires
            self.wf(),
            0 <= l < S,
            r != 1,
            r != 2,
        ensures
            self.static_all_answer(l, x, y, r) == square_all_in(self.static_board(l)@, x, y, r),
    {
        let s = self.static_board(l)@;
        if r == 0 && s.contains((x, y)) {
            assert forall|tx: int, ty: int| x - r <= tx <= x + r && y - r <= ty <= y + r implies #[trigger] s.contains((tx, ty)) by {
                assert(tx == x && ty == y);
            }
        }
        if r == 0 && square_all_in(s, x, y, r) {
            assert(s.contains((x, y)));
        }
    }

    /// As long as static layer `l` is the board that its last full sync copied (no
    /// tile update since), the walkability check answers, for every radius, whether
    /// every tile of the square is set in the layer: the cached erosions agree with it.
    pub proof fn lemma_synced_answer(&self, l: int, x: int, y: int, r: int)
        requires
            self.wf(),
            0 <= l < S,
            self.synced_layer(l) == self.static_board(l)@,
        ensures
            self.static_all_answer(l, x, y, r) == square_all_in(self.static_board(l)@, x, y, r),
    {
        let s = self.static_board(l)@;
        if r >= 0 && square_all_in(s, x, y, r) {
            assert(s.contains((x, y)));
        }
        if r == 0 && s.contains((x, y)) {
            assert forall|tx: int, ty: int| x - r <= tx <= x + r && y - r <= ty <= y + r implies #[trigger] s.contains((tx, ty)) by {
                assert(tx == x && ty == y);
            }
        }
    }

    /// Whether every tile of the square `[x - radius, x + radius] x [y - radius, y + radius]`
    /// is set in static layer `layer_idx` (a walkability check).
    ///
    /// Radius 0 reads the layer itself; radii 1 and 2 read the erosion caches, that is
    /// the layer as the last full sync copied it; other radii check the layer
    /// directly. An index `layer_idx >= S` gives `false`.
    pub fn is_static_area_all_set(&self, layer_idx: usize, x: i32, y: i32, radius: i32) -> (all: bool)
        requires
            self.wf(),
        ensures
            all == self.static_all_answer(layer_idx as int, x as int, y as int, radius as int),
            layer_idx < S && radius != 1 && radius != 2 ==> all == square_all_in(
                self.static_board(layer_idx as int)@,
                x as int,
                y as int,
                radius as int,
            ),
            layer_idx < S && (radius == 1 || radius == 2) ==> all == (in_grid(
                W as int,
                H as int,
                x as int,
                y as int,
            ) && square_all_in(self.synced_layer(layer_idx as int), x as int, y as int, radius as int)),
            layer_idx >= S ==> !all,
    {
        if layer_idx >= S {
            return false;
        }
        if radius == 0 {
            return self.static_layers[layer_idx].get(x, y);
        }
        let mut c: usize = 0;
        while c < 2
            invariant
                self.wf(),
                layer_idx < S,
                radius != 0,
                c <= 2,
                forall|q: int| 0 <= q < c ==> CACHED_EROSION_RADII@[q] != radius,
            decreases 2 - c,
        {
            if CACHED_EROSION_RADII[c] == radius {
                proof {
                    assert(CACHED_EROSION_RADII@[c as int] == c + 1);
                }
                return self.eroded_layers[layer_idx][c].get(x, y);
            }
            c = c + 1;
        }
        self.static_layers[layer_idx].is_area_all_set(x, y, radius)
    }

    /// Whether some tile of the square `[x - radius, x + radius] x [y - radius, y + radius]`
    /// is set in static layer `layer_idx` (a collision check). An index
    /// `layer_idx >= S` gives `false`.
    pub fn is_static_area_any_set(&self, layer_idx: usize, x: i32, y: i32, radius: i32) -> (any: bool)
        requires
            self.wf(),
        ensures
            any == (layer_idx < S && square_any_in(
                self.static_board(layer_idx as int)@,
                x as int,
                y as int,
                radius as int,
            )),
    {
        if layer_idx >= S {
            return false;
        }
        self.static_layers[layer_idx].is_area_any_set(x, y, radius)
    }
}

} // verus!
