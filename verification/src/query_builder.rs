//! A builder for spatial hash queries.
use vstd::prelude::*;
use crate::entity_id::EntityId;
use crate::grid::tile_of;
use crate::spatial_hash::SpatialHash;
use crate::spatial_hash::query::{KindFilter, key_of, mask_filter};
use crate::tile_mask::TileMask;

verus! {

/// Builder for flexible spatial hash queries.
///
/// Obtained via [`SpatialHash::query`]. Chain filter methods, then call a shape
/// method (`rect`, `mask`) to collect the matching entities.
pub struct SpatialQuery<'a, ID, const W: usize, const H: usize, const E: usize, const S: usize> {
    hash: &'a SpatialHash<ID, W, H, E, S>,
    /// Bitmask of accepted kind indices; `None` accepts all kinds.
    kind_mask: Option<u64>,
    /// Entity to exclude from results.
    exclude: Option<ID>,
}

impl<'a, ID: EntityId, const W: usize, const H: usize, const E: usize, const S: usize> SpatialQuery<
    'a,
    ID,
    W,
    H,
    E,
    S,
> {
    /// The spatial hash that the query reads.
    pub closed spec fn hash(&self) -> &'a SpatialHash<ID, W, H, E, S> {
        self.hash
    }

    /// The kind filter: a bitmask of accepted kind indices, or `None` for all kinds.
    pub closed spec fn kind_filter(&self) -> Option<u64> {
        self.kind_mask
    }

    /// The entity left out of the results, if any.
    pub closed spec fn excluded(&self) -> Option<ID> {
        self.exclude
    }

    /// Creates a new query builder with no filters applied.
    pub fn new(hash: &'a SpatialHash<ID, W, H, E, S>) -> (q: Self)
        ensures
            q.hash() == hash,
            q.kind_filter() == None::<u64>,
            q.excluded() == None::<ID>,
    {
        SpatialQuery { hash, kind_mask: None, exclude: None }
    }

    /// Filter results to entities whose `kind_idx` has the corresponding bit set in `mask`.
    ///
    /// Bit `k` selects `kind_idx == k`. Multiple bits yield OR semantics.
    /// `mask = 0` matches nothing and always yields an empty result.
    /// Calling this (or [`with_kind`](Self::with_kind)) multiple times **overwrites** the
    /// previous value; combine masks on the caller side for OR logic across calls.
    pub fn with_kind_mask(self, mask: u64) -> (q: Self)
        ensures
            q.hash() == self.hash(),
            q.kind_filter() == Some(mask),
            q.excluded() == self.excluded(),
    {
        let mut q = self;
        q.kind_mask = Some(mask);
        q
    }

    /// Filter results to a single entity kind.
    ///
    /// Equivalent to `with_kind_mask(1 << kind_idx)`. If called multiple times, only the
    /// **last** call takes effect. Use [`with_kind_mask`](Self::with_kind_mask) to select
    /// multiple kinds in one call.
    pub fn with_kind(self, kind_idx: usize) -> (q: Self)
        requires
            kind_idx < 64,
        ensures
            q.hash() == self.hash(),
            q.kind_filter() == Some(1u64 << kind_idx),
            q.excluded() == self.excluded(),
    {
        let mut q = self;
        q.kind_mask = Some(1u64 << kind_idx);
        q
    }

    /// Exclude a specific entity from results. Only the last call takes effect.
    pub fn exclude(self, id: ID) -> (q: Self)
        ensures
            q.hash() == self.hash(),
            q.kind_filter() == self.kind_filter(),
            q.excluded() == Some(id),
    {
        let mut q = self;
        q.exclude = Some(id);
        q
    }

    /// The entities registered within the rectangle whose corner is `(x, y)` and whose
    /// sizes are `width` and `height`, tile by tile in row-major order.
    ///
    /// A single-kind filter naming a kind at or above `E` is a programming error.
    pub fn rect(&self, x: i32, y: i32, width: i32, height: i32) -> (found: Vec<ID>)
        requires
            self.hash().wf(),
            SpatialHash::<ID, W, H, E, S>::filter_in_range(mask_filter(self.kind_filter())),
        ensures
            found@.map_values(|id: ID| id.key()) == self.hash().query_keys(
                Seq::new(
                    SpatialHash::<ID, W, H, E, S>::size() as nat,
                    |i: int|
                        x <= tile_of(W as int, i).0 < x + width && y <= tile_of(W as int, i).1 < y
                            + height,
                ),
                mask_filter(self.kind_filter()),
                key_of(self.excluded()),
                SpatialHash::<ID, W, H, E, S>::size() as nat,
            ),
    {
        proof {
            self.hash.lemma_wf_params();
        }
        let mask = TileMask::<W, H>::mask_rect(x, y, width, height);
        proof {
            let target = Seq::new(
                SpatialHash::<ID, W, H, E, S>::size() as nat,
                |i: int|
                    x <= tile_of(W as int, i).0 < x + width && y <= tile_of(W as int, i).1 < y
                        + height,
            );
            assert forall|i: int| 0 <= i < target.len() implies #[trigger] mask.flags()[i] == target[i] by {
                mask.lemma_flag_at(i);
            }
            assert(mask.flags() =~= target);
        }
        self.hash.query_with_mask(&mask, self.filter(), self.exclude)
    }

    /// The entities registered on the tiles of `mask`, tile by tile in row-major order.
    ///
    /// A single-kind filter naming a kind at or above `E` is a programming error.
    pub fn mask(&self, mask: &TileMask<W, H>) -> (found: Vec<ID>)
        requires
            self.hash().wf(),
            mask.wf(),
            SpatialHash::<ID, W, H, E, S>::filter_in_range(mask_filter(self.kind_filter())),
        ensures
            found@.map_values(|id: ID| id.key()) == self.hash().query_keys(
                mask.flags(),
                mask_filter(self.kind_filter()),
                key_of(self.excluded()),
                SpatialHash::<ID, W, H, E, S>::size() as nat,
            ),
    {
        self.hash.query_with_mask(mask, self.filter(), self.exclude)
    }

    /// The kind filter that the kind mask stands for.
    fn filter(&self) -> (filter: KindFilter)
        ensures
            filter == mask_filter(self.kind_filter()),
    {
        match self.kind_mask {
            Some(m) => KindFilter::Mask(m),
            None => KindFilter::Any,
        }
    }

    /// Whether the kind filter names only kinds that exist: a mask with a single bit
    /// must name a kind below `E` (`rect` and `mask` require it).
    pub fn kind_filter_ok(&self) -> (ok: bool)
        ensures
            ok == SpatialHash::<ID, W, H, E, S>::filter_in_range(mask_filter(self.kind_filter())),
    {
        match self.kind_mask {
            Some(m) => {
                if m != 0 && m & (m - 1) == 0 {
                    (m.trailing_zeros() as usize) < E
                } else {
                    true
                }
            },
            None => true,
        }
    }
}

} // verus!
