//! Registering, moving and removing entities.
use vstd::prelude::*;
use crate::entity_id::EntityId;
use crate::geometry::{Rect, square_fits, for_each_rect_diff};
use crate::grid::{dims_fit, in_grid, tile_of, lemma_tile_index, lemma_index_tile};
use crate::storage::{
    cell_at, cell_len, cell_push, cell_swap_remove, table_get, table_insert, table_remove,
};
use crate::tile_mask::TileMask;
use super::{
    SpatialHash, EntityEntry, covers, entry_data, find_key_from, has_kind, lemma_find_key_from, lemma_without_key, without_key,
};

verus! {

/// Whether `|a - b| < threshold`.
pub open spec fn abs_diff_below(a: i32, b: i32, threshold: i32) -> bool {
    let d = a - b;
    (if d < 0 { -d } else { d }) < threshold
}

/// Whether one of the first `n` tiles of `tiles` is `(a, b)`.
pub open spec fn listed(tiles: Seq<(i32, i32)>, n: int, a: int, b: int) -> bool {
    exists|k: int| 0 <= k < n && #[trigger] tiles[k].0 == a && tiles[k].1 == b
}

impl<ID: EntityId, const W: usize, const H: usize, const E: usize, const S: usize> SpatialHash<
    ID,
    W,
    H,
    E,
    S,
> {
    /// Returns the tile-space `(x, y, radius)` of the entity, or `None` if not registered.
    pub fn get_entity_info(&self, id: ID) -> (info: Option<(i32, i32, i32)>)
        requires
            self.wf(),
        ensures
            info == (if self.entities().contains_key(id.key()) {
                Some(
                    (
                        self.entities()[id.key()].0,
                        self.entities()[id.key()].1,
                        self.entities()[id.key()].2,
                    ),
                )
            } else {
                None
            }),
    {
        match table_get(&self.entity_info, id.to_key()) {
            Some(e) => Some((e.0, e.1, e.2)),
            None => None,
        }
    }

    /// Returns the full record of the entity, or `None` if not registered.
    pub fn entity_entry(&self, id: ID) -> (entry: Option<EntityEntry>)
        requires
            self.wf(),
        ensures
            entry == (if self.entities().contains_key(id.key()) {
                Some(
                    EntityEntry {
                        center: (self.entities()[id.key()].0, self.entities()[id.key()].1),
                        radius: self.entities()[id.key()].2,
                        kind_idx: self.entities()[id.key()].3,
                    },
                )
            } else {
                None
            }),
    {
        match table_get(&self.entity_info, id.to_key()) {
            Some(e) => Some(EntityEntry { center: (e.0, e.1), radius: e.2, kind_idx: e.3 }),
            None => None,
        }
    }

    /// Inserts an entity at the given tile position with the specified radius and kind.
    ///
    /// Registers the entity in every tile within `[tile_pos ± radius]` on both axes.
    /// Calling `insert` on an already-registered ID overwrites its record but leaves
    /// stale cell entries; call [`remove`](Self::remove) first when re-registering.
    pub fn insert(&mut self, id: ID, tile_pos: (i32, i32), radius: i32, kind_idx: usize)
        requires
            old(self).wf(),
            kind_idx < E,
            kind_idx < 256,
            square_fits(tile_pos, radius),
        ensures
            final(self).wf(),
            old(self).pushed_over(
                final(self),
                |a: int, b: int| covers(entry_data(tile_pos, radius, kind_idx), a, b),
                (id.key(), kind_idx as u8),
                kind_idx as int,
            ),
            final(self).entities() == old(self).entities().insert(
                id.key(),
                entry_data(tile_pos, radius, kind_idx),
            ),
    {
        let rect = Rect::centered(tile_pos, radius);
        self.insert_in_rect(rect, id, kind_idx);
        proof {
            Self::lemma_pushed_region(
                old(self),
                self,
                |a: int, b: int| rect.contains(a, b),
                |a: int, b: int| covers(entry_data(tile_pos, radius, kind_idx), a, b),
                (id.key(), kind_idx as u8),
                kind_idx as int,
            );
        }
        let ghost mid = *self;
        table_insert(&mut self.entity_info, id.to_key(), (tile_pos.0, tile_pos.1, radius, kind_idx));
        proof {
            Self::lemma_pushed_frame(
                old(self),
                &mid,
                self,
                |a: int, b: int| covers(entry_data(tile_pos, radius, kind_idx), a, b),
                (id.key(), kind_idx as u8),
                kind_idx as int,
            );
            Self::lemma_wf_entities(&mid, self);
        }
    }

    /// Removes an entity from all cells it currently occupies.
    ///
    /// If the entity is not registered, this is a no-op.
    pub fn remove(&mut self, id: ID)
        requires
            old(self).wf(),
        ensures
            final(self).wf(),
            old(self).entities().contains_key(id.key()) ==> {
                let e = old(self).entities()[id.key()];
                &&& old(self).removed_over(
                    final(self),
                    |a: int, b: int| covers(e, a, b),
                    id.key(),
                    e.3 as int,
                )
                &&& final(self).entities() == old(self).entities().remove(id.key())
            },
            !old(self).entities().contains_key(id.key()) ==> old(self).same_contents(final(self)),
    {
        let key = id.to_key();
        match table_remove(&mut self.entity_info, key) {
            Some(e) => {
                proof {
                    assert(old(self).entities().contains_key(key));
                    assert(Self::entry_ok(e));
                    Self::lemma_wf_entities(old(self), self);
                }
                let rect = Rect::centered((e.0, e.1), e.2);
                self.remove_in_rect(rect, id, e.3);
                proof {
                    Self::lemma_removed_region(
                        old(self),
                        self,
                        |a: int, b: int| rect.contains(a, b),
                        |a: int, b: int| covers(e, a, b),
                        key,
                        e.3 as int,
                    );
                }
            },
            None => {
                proof {
                    assert(self.entities() =~= old(self).entities());
                    Self::lemma_wf_entities(old(self), self);
                }
            },
        }
    }

    /// Updates the entity's cell registrations using a minimal diff.
    ///
    /// Takes one of four paths depending on what changed:
    ///
    /// 1. **Not registered** — delegates to [`insert`](Self::insert).
    /// 2. **Exact match** (center, radius, and kind_idx all unchanged) — no-op.
    /// 3. **radius or kind_idx changed** — calls [`remove`](Self::remove) then
    ///    [`insert`](Self::insert) to fully rebuild the registration.
    /// 4. **center only changed** — uses [`for_each_rect_diff`] to visit only the
    ///    cells that entered or left the bounding square, issuing targeted
    ///    `cell_remove`/`cell_insert` calls.
    pub fn update_diff(&mut self, id: ID, new_center: (i32, i32), new_radius: i32, new_kind_idx: usize)
        requires
            old(self).wf(),
            new_kind_idx < E,
            new_kind_idx < 256,
            square_fits(new_center, new_radius),
        ensures
            final(self).wf(),
            old(self).updated(final(self), id.key(), entry_data(new_center, new_radius, new_kind_idx)),
    {
        let key = id.to_key();
        let ghost e = entry_data(new_center, new_radius, new_kind_idx);
        let old_info = match table_get(&self.entity_info, key) {
            Some(info) => {
                // Path 2: exact match — nothing to do.
                if info.0 == new_center.0 && info.1 == new_center.1 && info.2 == new_radius && info.3
                    == new_kind_idx {
                    return;
                }
                // Path 3: radius or kind changed — rebuild via remove + insert.
                if info.2 != new_radius || info.3 != new_kind_idx {
                    self.remove(id);
                    let ghost mid = *self;
                    self.insert(id, new_center, new_radius, new_kind_idx);
                    proof {
                        assert(old(self).rebuilt_via(&mid, self, key, info, e));
                        assert(self.entities() =~= old(self).entities().insert(key, e));
                    }
                    return;
                }
                info
            },
            None => {
                // Path 1: not yet registered — insert fresh.
                self.insert(id, new_center, new_radius, new_kind_idx);
                return;
            },
        };
        // Path 4: center only changed — visit the tiles of the two square differences.
        proof {
            assert(old(self).entities().contains_key(key));
            assert(Self::entry_ok(old_info));
            assert(old_info.2 == new_radius && old_info.3 == new_kind_idx);
        }
        // Only the tiles on the board matter: clip both squares to it first.
        let old_rect = Rect::centered((old_info.0, old_info.1), new_radius).clipped(W, H);
        let new_rect = Rect::centered(new_center, new_radius).clipped(W, H);
        // Remove cells that were in the old region but are not in the new one.
        let leaving = for_each_rect_diff(old_rect, new_rect);
        self.remove_at_tiles(&leaving, id, new_kind_idx);
        let ghost mid = *self;
        proof {
            assert forall|a: int, b: int| in_grid(W as int, H as int, a, b) implies #[trigger] listed(
                leaving@,
                leaving@.len() as int,
                a,
                b,
            ) == (covers(old_info, a, b) && !covers(e, a, b)) by {
                if covers(old_info, a, b) && !covers(e, a, b) {
                    assert(old_rect.contains(a, b) && !new_rect.contains(a, b));
                    let k = choose|k: int| 0 <= k < leaving@.len() && #[trigger] leaving@[k] == (a as i32, b as i32);
                    assert(leaving@[k].0 == a && leaving@[k].1 == b);
                }
                if listed(leaving@, leaving@.len() as int, a, b) {
                    let k = choose|k: int|
                        0 <= k < leaving@.len() && #[trigger] leaving@[k].0 == a && leaving@[k].1 == b;
                    assert(old_rect.contains(leaving@[k].0 as int, leaving@[k].1 as int));
                }
            }
            Self::lemma_removed_region(
                old(self),
                &mid,
                |a: int, b: int| listed(leaving@, leaving@.len() as int, a, b),
                |a: int, b: int| covers(old_info, a, b) && !covers(e, a, b),
                key,
                old_info.3 as int,
            );
        }
        // Insert cells that are in the new region but were not in the old one.
        let entering = for_each_rect_diff(new_rect, old_rect);
        self.insert_at_tiles(&entering, id, new_kind_idx);
        proof {
            assert forall|a: int, b: int| in_grid(W as int, H as int, a, b) implies #[trigger] listed(
                entering@,
                entering@.len() as int,
                a,
                b,
            ) == (covers(e, a, b) && !covers(old_info, a, b)) by {
                if covers(e, a, b) && !covers(old_info, a, b) {
                    assert(new_rect.contains(a, b) && !old_rect.contains(a, b));
                    let k = choose|k: int| 0 <= k < entering@.len() && #[trigger] entering@[k] == (a as i32, b as i32);
                    assert(entering@[k].0 == a && entering@[k].1 == b);
                }
                if listed(entering@, entering@.len() as int, a, b) {
                    let k = choose|k: int|
                        0 <= k < entering@.len() && #[trigger] entering@[k].0 == a && entering@[k].1 == b;
                    assert(new_rect.contains(entering@[k].0 as int, entering@[k].1 as int));
                }
            }
            Self::lemma_pushed_region(
                &mid,
                self,
                |a: int, b: int| listed(entering@, entering@.len() as int, a, b),
                |a: int, b: int| covers(e, a, b) && !covers(old_info, a, b),
                (key, new_kind_idx as u8),
                new_kind_idx as int,
            );
        }
        let ghost mid2 = *self;
        table_insert(&mut self.entity_info, key, (new_center.0, new_center.1, new_radius, new_kind_idx));
        proof {
            Self::lemma_pushed_frame(
                &mid,
                &mid2,
                self,
                |a: int, b: int| covers(e, a, b) && !covers(old_info, a, b),
                (key, new_kind_idx as u8),
                new_kind_idx as int,
            );
            Self::lemma_wf_entities(&mid2, self);
            assert(old(self).moved_via(&mid, self, key, old_info, e));
        }
    }

    /// Whether a throttled update of the entity under `key` is suppressed: it is
    /// registered, moves less than `threshold` on both axes, and keeps its radius and
    /// kind.
    pub open spec fn throttled(
        &self,
        key: u64,
        new_center: (i32, i32),
        new_radius: i32,
        new_kind_idx: usize,
        threshold: i32,
    ) -> bool {
        let ents = self.entities();
        &&& ents.contains_key(key)
        &&& abs_diff_below(new_center.0, ents[key].0, threshold)
        &&& abs_diff_below(new_center.1, ents[key].1, threshold)
        &&& ents[key].2 == new_radius
        &&& ents[key].3 == new_kind_idx
    }

    /// With a threshold of 1 or less, a throttled update has exactly the effect of
    /// [`update_diff`](Self::update_diff): a move of a tile or more is never
    /// suppressed, and what is suppressed (same center, radius and kind) changes
    /// nothing under `update_diff` either.
    pub proof fn lemma_unit_threshold_is_update(
        pre: &Self,
        post: &Self,
        key: u64,
        new_center: (i32, i32),
        new_radius: i32,
        new_kind_idx: usize,
        threshold: i32,
    )
        requires
            threshold <= 1,
            pre.throttled(key, new_center, new_radius, new_kind_idx, threshold) ==> pre.same_contents(post),
            !pre.throttled(key, new_center, new_radius, new_kind_idx, threshold) ==> pre.updated(
                post,
                key,
                entry_data(new_center, new_radius, new_kind_idx),
            ),
        ensures
            pre.updated(post, key, entry_data(new_center, new_radius, new_kind_idx)),
    {
        if pre.throttled(key, new_center, new_radius, new_kind_idx, threshold) {
            assert(pre.entities()[key] == entry_data(new_center, new_radius, new_kind_idx));
        }
    }

    /// Whether [`update_with_threshold`](Self::update_with_threshold) would suppress
    /// this update (see [`throttled`](Self::throttled)).
    pub fn is_throttled(
        &self,
        id: ID,
        new_center: (i32, i32),
        new_radius: i32,
        new_kind_idx: usize,
        threshold: i32,
    ) -> (skip: bool)
        requires
            self.wf(),
            self.entities().contains_key(id.key()) ==> {
                let o = self.entities()[id.key()];
                &&& i32::MIN < new_center.0 - o.0 <= i32::MAX
                &&& i32::MIN < new_center.1 - o.1 <= i32::MAX
            },
        ensures
            skip == self.throttled(id.key(), new_center, new_radius, new_kind_idx, threshold),
    {
        match table_get(&self.entity_info, id.to_key()) {
            Some(info) => {
                let ddx = new_center.0 - info.0;
                let ddy = new_center.1 - info.1;
                let dx = if ddx < 0 { -ddx } else { ddx };
                let dy = if ddy < 0 { -ddy } else { ddy };
                dx < threshold && dy < threshold && info.2 == new_radius && info.3 == new_kind_idx
            },
            None => false,
        }
    }

    /// Throttled update that suppresses [`update_diff`](Self::update_diff) for small movements.
    ///
    /// Suppression criterion: strict Chebyshev distance `|dx| < threshold && |dy| < threshold`
    /// **and** no change to `radius` or `kind_idx`. With `threshold = 1`, the entity must
    /// move at least one full tile on either axis before the hash is updated.
    pub fn update_with_threshold(
        &mut self,
        id: ID,
        new_center: (i32, i32),
        new_radius: i32,
        new_kind_idx: usize,
        threshold: i32,
    )
        requires
            old(self).wf(),
            !old(self).throttled(id.key(), new_center, new_radius, new_kind_idx, threshold) ==> {
                &&& new_kind_idx < E
                &&& new_kind_idx < 256
                &&& square_fits(new_center, new_radius)
            },
            old(self).entities().contains_key(id.key()) ==> {
                let o = old(self).entities()[id.key()];
                &&& i32::MIN < new_center.0 - o.0 <= i32::MAX
                &&& i32::MIN < new_center.1 - o.1 <= i32::MAX
            },
        ensures
            final(self).wf(),
            old(self).throttled(id.key(), new_center, new_radius, new_kind_idx, threshold) ==> old(
                self,
            ).same_contents(final(self)),
            !old(self).throttled(id.key(), new_center, new_radius, new_kind_idx, threshold) ==> old(
                self,
            ).updated(final(self), id.key(), entry_data(new_center, new_radius, new_kind_idx)),
    {
        if self.is_throttled(id, new_center, new_radius, new_kind_idx, threshold) {
            return;
        }
        self.update_diff(id, new_center, new_radius, new_kind_idx);
    }

    /// Alias for [`update_diff`](Self::update_diff).
    pub fn update(&mut self, id: ID, new_tile_pos: (i32, i32), radius: i32, kind_idx: usize)
        requires
            old(self).wf(),
            kind_idx < E,
            kind_idx < 256,
            square_fits(new_tile_pos, radius),
        ensures
            final(self).wf(),
            old(self).updated(final(self), id.key(), entry_data(new_tile_pos, radius, kind_idx)),
    {
        self.update_diff(id, new_tile_pos, radius, kind_idx);
    }

    /// Registers `id` at tile `(x, y)` in its cell, the presence board and the board
    /// of `kind_idx`. A tile off the board is ignored.
    pub(crate) fn cell_insert(&mut self, x: i32, y: i32, id: ID, kind_idx: usize)
        requires
            old(self).wf(),
            kind_idx < E,
            kind_idx < 256,
        ensures
            final(self).wf(),
            final(self).entities() == old(self).entities(),
            old(self).pushed_over(
                final(self),
                |a: int, b: int| a == x && b == y,
                (id.key(), kind_idx as u8),
                kind_idx as int,
            ),
    {
        let ghost region = |a: int, b: int| a == x && b == y;
        match TileMask::<W, H>::tile_to_index(x, y) {
            Some(idx) => {
                let key = id.to_key();
                proof {
                    lemma_tile_index(W as int, H as int, x as int, y as int);
                    ID::lemma_key(id, id);
                }
                cell_push(&mut self.cells[idx], (key, kind_idx as u8));
                self.presence.set_index(idx, true);
                let ghost kb_old = self.kind_boards@;
                self.kind_boards[kind_idx].set_index(idx, true);
                proof {
                    assert(kind_idx < 256);
                    assert((kind_idx as u8) as int == kind_idx);
                    assert(old(self).kind_boards@ == kb_old);
                    assert(kb_old[kind_idx as int].wf());
                    assert(self.kind_boards@.len() == kb_old.len());
                    assert(forall|k: int| 0 <= k < E && k != kind_idx ==> self.kind_boards@[k] == kb_old[k]);
                    assert(self.kind_boards@[kind_idx as int].flags() == kb_old[kind_idx as int].flags().update(idx as int, true));
                    assert forall|i: int| 0 <= i < Self::size() implies #[trigger] self.cell(i) == (if region(
                        tile_of(W as int, i).0,
                        tile_of(W as int, i).1,
                    ) {
                        old(self).cell(i).push((key, kind_idx as u8))
                    } else {
                        old(self).cell(i)
                    }) by {
                        lemma_index_tile(W as int, H as int, i);
                    }
                    assert forall|k: int, i: int|
                        0 <= k < E && 0 <= i < Self::size() implies #[trigger] self.kind_flag(k, i) == (if k
                            == kind_idx && region(tile_of(W as int, i).0, tile_of(W as int, i).1) {
                            true
                        } else {
                            old(self).kind_flag(k, i)
                        }) by {
                        lemma_index_tile(W as int, H as int, i);
                        assert(old(self).kind_boards@ == kb_old);
                        if k != kind_idx {
                            assert(self.kind_boards@[k] == kb_old[k]);
                        } else {
                            assert(kb_old[k].wf());
                            if i != idx {
                                assert(self.kind_boards@[k].flags()[i] == kb_old[k].flags()[i]);
                            }
                        }
                    }
                    assert(self.statics() == old(self).statics());
                    assert forall|k: int| 0 <= k < E implies #[trigger] self.kind_boards@[k].wf() by {
                        if k != kind_idx {
                            assert(self.kind_boards@[k] == kb_old[k]);
                        }
                    }
                    assert forall|j: int| 0 <= j < self.cell(idx as int).len() implies {
                        &&& #[trigger] self.cell(idx as int)[j].1 < E
                        &&& self.kind_flag(self.cell(idx as int)[j].1 as int, idx as int)
                        &&& ID::is_key(self.cell(idx as int)[j].0)
                    } by {
                        let kk = self.cell(idx as int)[j].1 as int;
                        if j < old(self).cell(idx as int).len() {
                            assert(self.cell(idx as int)[j] == old(self).cell(idx as int)[j]);
                            assert(old(self).kind_flag(kk, idx as int));
                            if kk != kind_idx {
                                assert(self.kind_boards@[kk] == kb_old[kk]);
                            }
                        } else {
                            assert(self.cell(idx as int)[j] == (key, kind_idx as u8));
                        }
                    }
                    Self::lemma_wf_local(old(self), self, idx as int);
                }
            },
            None => {
                proof {
                    assert forall|i: int| #![trigger tile_of(W as int, i)] 0 <= i < Self::size() implies !region(
                        tile_of(W as int, i).0,
                        tile_of(W as int, i).1,
                    ) by {
                        lemma_index_tile(W as int, H as int, i);
                    }
                }
            },
        }
    }

    /// Takes the first entry of `id` out of the cell of tile `(x, y)`; clears the tile
    /// on the presence board when the cell is left empty, and on the board of
    /// `kind_idx` when no entry of that kind is left. A tile off the board is ignored.
    #[verifier::rlimit(50)]
    pub(crate) fn cell_remove(&mut self, x: i32, y: i32, id: ID, kind_idx: usize)
        requires
            old(self).wf(),
            kind_idx < E,
            kind_idx < 256,
        ensures
            final(self).wf(),
            final(self).entities() == old(self).entities(),
            old(self).removed_over(
                final(self),
                |a: int, b: int| a == x && b == y,
                id.key(),
                kind_idx as int,
            ),
    {
        let ghost region = |a: int, b: int| a == x && b == y;
        match TileMask::<W, H>::tile_to_index(x, y) {
            Some(idx) => {
                let key = id.to_key();
                proof {
                    lemma_tile_index(W as int, H as int, x as int, y as int);
                }
                let ghost s = self.cell(idx as int);
                let len = cell_len(&self.cells[idx]);
                let mut j: usize = 0;
                while j < len
                    invariant
                        j <= len,
                        len == s.len(),
                        idx < Self::size(),
                        self.cells@.len() == Self::size(),
                        self.cell(idx as int) == s,
                        forall|q: int| 0 <= q < j ==> #[trigger] s[q].0 != key,
                    ensures
                        j <= len,
                        forall|q: int| 0 <= q < j ==> #[trigger] s[q].0 != key,
                        j < len ==> s[j as int].0 == key,
                    decreases len - j,
                {
                    if cell_at(&self.cells[idx], j).0 == key {
                        break;
                    }
                    j = j + 1;
                }
                proof {
                    lemma_find_key_from(s, key, 0);
                    let p = find_key_from(s, key, 0);
                    if p < j {
                        assert(s[p].0 == key);
                    }
                    if p > j {
                        assert(s[j as int].0 != key);
                    }
                    assert(p == j);
                }
                if j < len {
                    cell_swap_remove(&mut self.cells[idx], j);
                }
                proof {
                    assert(self.cell(idx as int) == without_key(s, key));
                    lemma_without_key(s, key);
                }
                let ghost s2 = self.cell(idx as int);
                if cell_len(&self.cells[idx]) == 0 {
                    self.presence.set_index(idx, false);
                }
                let kind = kind_idx as u8;
                let len2 = cell_len(&self.cells[idx]);
                let mut has_same_kind = false;
                let mut q: usize = 0;
                while q < len2
                    invariant
                        q <= len2,
                        len2 == s2.len(),
                        idx < Self::size(),
                        self.cells@.len() == Self::size(),
                        self.cell(idx as int) == s2,
                        has_same_kind == exists|r: int| 0 <= r < q && #[trigger] s2[r].1 == kind,
                    decreases len2 - q,
                {
                    if cell_at(&self.cells[idx], q).1 == kind {
                        has_same_kind = true;
                    }
                    q = q + 1;
                }
                assert(has_same_kind == has_kind(s2, kind as int));
                let ghost kb_old = self.kind_boards@;
                if !has_same_kind {
                    self.kind_boards[kind_idx].set_index(idx, false);
                }
                proof {
                    assert(kind_idx < 256);
                    assert((kind_idx as u8) as int == kind_idx);
                    assert(old(self).kind_boards@ == kb_old);
                    assert(kb_old[kind_idx as int].wf());
                    assert(self.kind_boards@.len() == kb_old.len());
                    assert(forall|k: int| 0 <= k < E && k != kind_idx ==> self.kind_boards@[k] == kb_old[k]);
                    assert forall|k: int| 0 <= k < E implies #[trigger] self.kind_boards@[k].wf() by {
                        if k != kind_idx {
                            assert(self.kind_boards@[k] == kb_old[k]);
                        }
                    }
                    assert(self.kind_boards@[kind_idx as int].flags() == if has_same_kind {
                        kb_old[kind_idx as int].flags()
                    } else {
                        kb_old[kind_idx as int].flags().update(idx as int, false)
                    });
                    assert forall|i: int| 0 <= i < Self::size() implies #[trigger] self.cell(i) == (if region(
                        tile_of(W as int, i).0,
                        tile_of(W as int, i).1,
                    ) {
                        without_key(old(self).cell(i), key)
                    } else {
                        old(self).cell(i)
                    }) by {
                        lemma_index_tile(W as int, H as int, i);
                    }
                    assert forall|k: int, i: int|
                        0 <= k < E && 0 <= i < Self::size() implies #[trigger] self.kind_flag(k, i) == (if k
                            == kind_idx && region(tile_of(W as int, i).0, tile_of(W as int, i).1) {
                            old(self).kind_flag(k, i) && has_kind(self.cell(i), kind_idx as int)
                        } else {
                            old(self).kind_flag(k, i)
                        }) by {
                        lemma_index_tile(W as int, H as int, i);
                        if k != kind_idx {
                            assert(self.kind_boards@[k] == kb_old[k]);
                        } else if i != idx {
                            assert(self.kind_boards@[k].flags()[i] == kb_old[k].flags()[i]);
                        } else {
                            assert(self.cell(i) == s2);
                        }
                    }
                    assert(self.statics() == old(self).statics());
                    assert forall|j2: int| 0 <= j2 < self.cell(idx as int).len() implies {
                        &&& #[trigger] self.cell(idx as int)[j2].1 < E
                        &&& self.kind_flag(self.cell(idx as int)[j2].1 as int, idx as int)
                        &&& ID::is_key(self.cell(idx as int)[j2].0)
                    } by {
                        let e = s2[j2];
                        let r = choose|r: int| 0 <= r < s.len() && #[trigger] s[r] == e;
                        assert(old(self).cell(idx as int)[r] == e);
                        let kk = e.1 as int;
                        assert(old(self).kind_flag(kk, idx as int));
                        if kk != kind_idx {
                            assert(self.kind_boards@[kk] == kb_old[kk]);
                        } else {
                            assert(s2[j2].1 == kind);
                            assert(has_kind(s2, kind as int));
                        }
                    }
                    Self::lemma_wf_local(old(self), self, idx as int);
                }
            },
            None => {
                proof {
                    assert forall|i: int| #![trigger tile_of(W as int, i)] 0 <= i < Self::size() implies !region(
                        tile_of(W as int, i).0,
                        tile_of(W as int, i).1,
                    ) by {
                        lemma_index_tile(W as int, H as int, i);
                    }
                }
            },
        }
    }

    /// Registers `id` with kind `kind_idx` at every tile of `r` on the board.
    pub(crate) fn insert_in_rect(&mut self, r: Rect, id: ID, kind_idx: usize)
        requires
            old(self).wf(),
            kind_idx < E,
            kind_idx < 256,
        ensures
            final(self).wf(),
            final(self).entities() == old(self).entities(),
            old(self).pushed_over(final(self), |a: int, b: int| r.contains(a, b), (id.key(), kind_idx as u8), kind_idx as int),
    {
        let ghost orig = *self;
        let ghost arg = (id.key(), kind_idx as u8);
        let xlo: i64 = if r.x1 < 0 { 0 } else { r.x1 as i64 };
        let ylo: i64 = if r.y1 < 0 { 0 } else { r.y1 as i64 };
        let xhi: i64 = if r.x2 as i64 >= W as i64 { W as i64 - 1 } else { r.x2 as i64 };
        let yhi: i64 = if r.y2 as i64 >= H as i64 { H as i64 - 1 } else { r.y2 as i64 };
        proof {
            assert(orig.pushed_over(&orig, |a: int, b: int| false, arg, kind_idx as int));
            Self::lemma_pushed_region(
                &orig,
                &orig,
                |a: int, b: int| false,
                |a: int, b: int| r.contains(a, b) && b < ylo,
                arg,
                kind_idx as int,
            );
        }
        let mut y: i64 = ylo;
        while y <= yhi
            invariant
                self.wf(),
                orig.wf(),
                kind_idx < E,
                kind_idx < 256,
                self.entities() == orig.entities(),
                arg == (id.key(), kind_idx as u8),
                xlo == (if r.x1 < 0 { 0 } else { r.x1 as int }),
                ylo == (if r.y1 < 0 { 0 } else { r.y1 as int }),
                xhi == (if r.x2 >= W { W as int - 1 } else { r.x2 as int }),
                yhi == (if r.y2 >= H { H as int - 1 } else { r.y2 as int }),
                dims_fit(W, H),
                ylo <= y,
                y <= yhi + 1 || yhi < ylo,
                yhi < ylo ==> y == ylo,
                orig.pushed_over(self, |a: int, b: int| r.contains(a, b) && b < y, arg, kind_idx as int),
            decreases yhi + 1 - y,
        {
            proof {
                Self::lemma_pushed_region(
                    &orig,
                    self,
                    |a: int, b: int| r.contains(a, b) && b < y,
                    |a: int, b: int| r.contains(a, b) && (b < y || (b == y && a < xlo)),
                    arg,
                    kind_idx as int,
                );
            }
            let mut x: i64 = xlo;
            while x <= xhi
                invariant
                    self.wf(),
                    orig.wf(),
                    kind_idx < E,
                    kind_idx < 256,
                    self.entities() == orig.entities(),
                    arg == (id.key(), kind_idx as u8),
                    xlo == (if r.x1 < 0 { 0 } else { r.x1 as int }),
                    ylo == (if r.y1 < 0 { 0 } else { r.y1 as int }),
                    xhi == (if r.x2 >= W { W as int - 1 } else { r.x2 as int }),
                    yhi == (if r.y2 >= H { H as int - 1 } else { r.y2 as int }),
                    dims_fit(W, H),
                    ylo <= y <= yhi,
                    xlo <= x,
                    x <= xhi + 1 || xhi < xlo,
                    xhi < xlo ==> x == xlo,
                    orig.pushed_over(
                        self,
                        |a: int, b: int| r.contains(a, b) && (b < y || (b == y && a < x)),
                        arg,
                        kind_idx as int,
                    ),
                decreases xhi + 1 - x,
            {
                let ghost before = *self;
                self.cell_insert(x as i32, y as i32, id, kind_idx);
                proof {
                    Self::lemma_pushed_compose(
                        &orig,
                        &before,
                        self,
                        |a: int, b: int| r.contains(a, b) && (b < y || (b == y && a < x)),
                        |a: int, b: int| a == x as i32 && b == y as i32,
                        arg,
                        kind_idx as int,
                    );
                    Self::lemma_pushed_region(
                        &orig,
                        self,
                        |a: int, b: int|
                            (r.contains(a, b) && (b < y || (b == y && a < x))) || (a == x as i32 && b
                                == y as i32),
                        |a: int, b: int| r.contains(a, b) && (b < y || (b == y && a < x + 1)),
                        arg,
                        kind_idx as int,
                    );
                }
                x = x + 1;
            }
            proof {
                Self::lemma_pushed_region(
                    &orig,
                    self,
                    |a: int, b: int| r.contains(a, b) && (b < y || (b == y && a < x)),
                    |a: int, b: int| r.contains(a, b) && b < y + 1,
                    arg,
                    kind_idx as int,
                );
            }
            y = y + 1;
        }
        proof {
            Self::lemma_pushed_region(
                &orig,
                self,
                |a: int, b: int| r.contains(a, b) && b < y,
                |a: int, b: int| r.contains(a, b),
                arg,
                kind_idx as int,
            );
        }
    }

    /// Takes the first entry of `id` out of the cell of every tile of `r` on the board,
    /// clearing the presence and `kind_idx` boards where that leaves nothing behind.
    pub(crate) fn remove_in_rect(&mut self, r: Rect, id: ID, kind_idx: usize)
        requires
            old(self).wf(),
            kind_idx < E,
            kind_idx < 256,
        ensures
            final(self).wf(),
            final(self).entities() == old(self).entities(),
            old(self).removed_over(final(self), |a: int, b: int| r.contains(a, b), id.key(), kind_idx as int),
    {
        let ghost orig = *self;
        let ghost arg = id.key();
        let xlo: i64 = if r.x1 < 0 { 0 } else { r.x1 as i64 };
        let ylo: i64 = if r.y1 < 0 { 0 } else { r.y1 as i64 };
        let xhi: i64 = if r.x2 as i64 >= W as i64 { W as i64 - 1 } else { r.x2 as i64 };
        let yhi: i64 = if r.y2 as i64 >= H as i64 { H as i64 - 1 } else { r.y2 as i64 };
        proof {
            assert(orig.removed_over(&orig, |a: int, b: int| false, arg, kind_idx as int));
            Self::lemma_removed_region(
                &orig,
                &orig,
                |a: int, b: int| false,
                |a: int, b: int| r.contains(a, b) && b < ylo,
                arg,
                kind_idx as int,
            );
        }
        let mut y: i64 = ylo;
        while y <= yhi
            invariant
                self.wf(),
                orig.wf(),
                kind_idx < E,
                kind_idx < 256,
                self.entities() == orig.entities(),
                arg == id.key(),
                xlo == (if r.x1 < 0 { 0 } else { r.x1 as int }),
                ylo == (if r.y1 < 0 { 0 } else { r.y1 as int }),
                xhi == (if r.x2 >= W { W as int - 1 } else { r.x2 as int }),
                yhi == (if r.y2 >= H { H as int - 1 } else { r.y2 as int }),
                dims_fit(W, H),
                ylo <= y,
                y <= yhi + 1 || yhi < ylo,
                yhi < ylo ==> y == ylo,
                orig.removed_over(self, |a: int, b: int| r.contains(a, b) && b < y, arg, kind_idx as int),
            decreases yhi + 1 - y,
        {
            proof {
                Self::lemma_removed_region(
                    &orig,
                    self,
                    |a: int, b: int| r.contains(a, b) && b < y,
                    |a: int, b: int| r.contains(a, b) && (b < y || (b == y && a < xlo)),
                    arg,
                    kind_idx as int,
                );
            }
            let mut x: i64 = xlo;
            while x <= xhi
                invariant
                    self.wf(),
                    orig.wf(),
                    kind_idx < E,
                    kind_idx < 256,
                    self.entities() == orig.entities(),
                    arg == id.key(),
                    xlo == (if r.x1 < 0 { 0 } else { r.x1 as int }),
                    ylo == (if r.y1 < 0 { 0 } else { r.y1 as int }),
                    xhi == (if r.x2 >= W { W as int - 1 } else { r.x2 as int }),
                    yhi == (if r.y2 >= H { H as int - 1 } else { r.y2 as int }),
                    dims_fit(W, H),
                    ylo <= y <= yhi,
                    xlo <= x,
                    x <= xhi + 1 || xhi < xlo,
                    xhi < xlo ==> x == xlo,
                    orig.removed_over(
                        self,
                        |a: int, b: int| r.contains(a, b) && (b < y || (b == y && a < x)),
                        arg,
                        kind_idx as int,
                    ),
                decreases xhi + 1 - x,
            {
                let ghost before = *self;
                self.cell_remove(x as i32, y as i32, id, kind_idx);
                proof {
                    Self::lemma_removed_compose(
                        &orig,
                        &before,
                        self,
                        |a: int, b: int| r.contains(a, b) && (b < y || (b == y && a < x)),
                        |a: int, b: int| a == x as i32 && b == y as i32,
                        arg,
                        kind_idx as int,
                    );
                    Self::lemma_removed_region(
                        &orig,
                        self,
                        |a: int, b: int|
                            (r.contains(a, b) && (b < y || (b == y && a < x))) || (a == x as i32 && b
                                == y as i32),
                        |a: int, b: int| r.contains(a, b) && (b < y || (b == y && a < x + 1)),
                        arg,
                        kind_idx as int,
                    );
                }
                x = x + 1;
            }
            proof {
                Self::lemma_removed_region(
                    &orig,
                    self,
                    |a: int, b: int| r.contains(a, b) && (b < y || (b == y && a < x)),
                    |a: int, b: int| r.contains(a, b) && b < y + 1,
                    arg,
                    kind_idx as int,
                );
            }
            y = y + 1;
        }
        proof {
            Self::lemma_removed_region(
                &orig,
                self,
                |a: int, b: int| r.contains(a, b) && b < y,
                |a: int, b: int| r.contains(a, b),
                arg,
                kind_idx as int,
            );
        }
    }

    /// Registers `id` with kind `kind_idx` at each listed tile on the board.
    fn insert_at_tiles(&mut self, tiles: &Vec<(i32, i32)>, id: ID, kind_idx: usize)
        requires
            old(self).wf(),
            kind_idx < E,
            kind_idx < 256,
            forall|k1: int, k2: int| 0 <= k1 < k2 < tiles@.len() ==> tiles@[k1] != tiles@[k2],
        ensures
            final(self).wf(),
            final(self).entities() == old(self).entities(),
            old(self).pushed_over(
                final(self),
                |a: int, b: int| listed(tiles@, tiles@.len() as int, a, b),
                (id.key(), kind_idx as u8),
                kind_idx as int,
            ),
    {
        let ghost orig = *self;
        let ghost arg = (id.key(), kind_idx as u8);
        proof {
            assert(orig.pushed_over(&orig, |a: int, b: int| false, arg, kind_idx as int));
            Self::lemma_pushed_region(
                &orig,
                &orig,
                |a: int, b: int| false,
                |a: int, b: int| listed(tiles@, 0, a, b),
                arg,
                kind_idx as int,
            );
        }
        let n = tiles.len();
        let mut j: usize = 0;
        while j < n
            invariant
                self.wf(),
                orig.wf(),
                kind_idx < E,
                kind_idx < 256,
                n == tiles@.len(),
                j <= n,
                self.entities() == orig.entities(),
                arg == (id.key(), kind_idx as u8),
                forall|k1: int, k2: int| 0 <= k1 < k2 < tiles@.len() ==> tiles@[k1] != tiles@[k2],
                orig.pushed_over(self, |a: int, b: int| listed(tiles@, j as int, a, b), arg, kind_idx as int),
            decreases n - j,
        {
            let (x, y) = tiles[j];
            let ghost before = *self;
            self.cell_insert(x, y, id, kind_idx);
            proof {
                assert forall|a: int, b: int| !(#[trigger] listed(tiles@, j as int, a, b) && a == x && b == y) by {
                    if listed(tiles@, j as int, a, b) && a == x && b == y {
                        let k = choose|k: int| 0 <= k < j && #[trigger] tiles@[k].0 == a && tiles@[k].1 == b;
                        assert(tiles@[k] == tiles@[j as int]);
                    }
                }
                Self::lemma_pushed_compose(
                    &orig,
                    &before,
                    self,
                    |a: int, b: int| listed(tiles@, j as int, a, b),
                    |a: int, b: int| a == x && b == y,
                    arg,
                    kind_idx as int,
                );
                assert forall|a: int, b: int|
                    #[trigger] listed(tiles@, j + 1, a, b) == (listed(tiles@, j as int, a, b) || (a == x && b == y)) by {
                    if listed(tiles@, j + 1, a, b) && !(a == x && b == y) {
                        let k = choose|k: int| 0 <= k < j + 1 && #[trigger] tiles@[k].0 == a && tiles@[k].1 == b;
                        assert(k < j);
                    }
                    if a == x && b == y {
                        assert(tiles@[j as int].0 == a && tiles@[j as int].1 == b);
                    }
                }
                Self::lemma_pushed_region(
                    &orig,
                    self,
                    |a: int, b: int| listed(tiles@, j as int, a, b) || (a == x && b == y),
                    |a: int, b: int| listed(tiles@, j + 1, a, b),
                    arg,
                    kind_idx as int,
                );
            }
            j = j + 1;
        }
    }

    /// Takes the first entry of `id` out of the cell of each listed tile on the board.
    fn remove_at_tiles(&mut self, tiles: &Vec<(i32, i32)>, id: ID, kind_idx: usize)
        requires
            old(self).wf(),
            kind_idx < E,
            kind_idx < 256,
            forall|k1: int, k2: int| 0 <= k1 < k2 < tiles@.len() ==> tiles@[k1] != tiles@[k2],
        ensures
            final(self).wf(),
            final(self).entities() == old(self).entities(),
            old(self).removed_over(
                final(self),
                |a: int, b: int| listed(tiles@, tiles@.len() as int, a, b),
                id.key(),
                kind_idx as int,
            ),
    {
        let ghost orig = *self;
        let ghost arg = id.key();
        proof {
            assert(orig.removed_over(&orig, |a: int, b: int| false, arg, kind_idx as int));
            Self::lemma_removed_region(
                &orig,
                &orig,
                |a: int, b: int| false,
                |a: int, b: int| listed(tiles@, 0, a, b),
                arg,
                kind_idx as int,
            );
        }
        let n = tiles.len();
        let mut j: usize = 0;
        while j < n
            invariant
                self.wf(),
                orig.wf(),
                kind_idx < E,
                kind_idx < 256,
                n == tiles@.len(),
                j <= n,
                self.entities() == orig.entities(),
                arg == id.key(),
                forall|k1: int, k2: int| 0 <= k1 < k2 < tiles@.len() ==> tiles@[k1] != tiles@[k2],
                orig.removed_over(self, |a: int, b: int| listed(tiles@, j as int, a, b), arg, kind_idx as int),
            decreases n - j,
        {
            let (x, y) = tiles[j];
            let ghost before = *self;
            self.cell_remove(x, y, id, kind_idx);
            proof {
                assert forall|a: int, b: int| !(#[trigger] listed(tiles@, j as int, a, b) && a == x && b == y) by {
                    if listed(tiles@, j as int, a, b) && a == x && b == y {
                        let k = choose|k: int| 0 <= k < j && #[trigger] tiles@[k].0 == a && tiles@[k].1 == b;
                        assert(tiles@[k] == tiles@[j as int]);
                    }
                }
                Self::lemma_removed_compose(
                    &orig,
                    &before,
                    self,
                    |a: int, b: int| listed(tiles@, j as int, a, b),
                    |a: int, b: int| a == x && b == y,
                    arg,
                    kind_idx as int,
                );
                assert forall|a: int, b: int|
                    #[trigger] listed(tiles@, j + 1, a, b) == (listed(tiles@, j as int, a, b) || (a == x && b == y)) by {
                    if listed(tiles@, j + 1, a, b) && !(a == x && b == y) {
                        let k = choose|k: int| 0 <= k < j + 1 && #[trigger] tiles@[k].0 == a && tiles@[k].1 == b;
                        assert(k < j);
                    }
                    if a == x && b == y {
                        assert(tiles@[j as int].0 == a && tiles@[j as int].1 == b);
                    }
                }
                Self::lemma_removed_region(
                    &orig,
                    self,
                    |a: int, b: int| listed(tiles@, j as int, a, b) || (a == x && b == y),
                    |a: int, b: int| listed(tiles@, j + 1, a, b),
                    arg,
                    kind_idx as int,
                );
            }
            j = j + 1;
        }
    }
}

} // verus!
