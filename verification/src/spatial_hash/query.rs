//! Finding the entities that occupy a set of tiles.
use vstd::prelude::*;
use vstd::std_specs::bits::{u64_trailing_zeros, axiom_u64_trailing_zeros};
use crate::entity_id::EntityId;
use crate::grid::{in_grid, tile_index, tile_of, lemma_tile_index};
use crate::storage::{cell_at, cell_len};
use crate::geometry::square_fits;
use crate::tile_mask::TileMask;
use super::SpatialHash;

verus! {

/// The kinds that a query accepts.
#[derive(Debug, Clone, Copy, PartialEq, Eq)]
pub enum KindFilter {
    /// Every kind.
    Any,
    /// The kinds whose bit is set in the mask; a kind of 64 or more never.
    Mask(u64),
    /// Exactly the one kind.
    Only(usize),
}

/// The filter that a kind mask of the query builder stands for: `None` accepts
/// every kind.
pub open spec fn mask_filter(kind_mask: Option<u64>) -> KindFilter {
    match kind_mask {
        Some(m) => KindFilter::Mask(m),
        None => KindFilter::Any,
    }
}

/// Whether entry `e` passes the kind filter.
pub open spec fn passes_kind(e: (u64, u8), filter: KindFilter) -> bool {
    match filter {
        KindFilter::Any => true,
        KindFilter::Mask(m) => e.1 < 64 && (m >> (e.1 as u64)) & 1 == 1,
        KindFilter::Only(k) => e.1 as int == k as int,
    }
}

/// Whether entry `e` passes the kind filter and is not the excluded key.
pub open spec fn passes(e: (u64, u8), filter: KindFilter, exclude: Option<u64>) -> bool {
    &&& passes_kind(e, filter)
    &&& match exclude {
        Some(x) => e.0 != x,
        None => true,
    }
}

/// The keys of the entries of `s` that pass the filters, in order.
pub open spec fn passing_keys(s: Seq<(u64, u8)>, filter: KindFilter, exclude: Option<u64>) -> Seq<u64>
    decreases s.len(),
{
    if s.len() == 0 {
        Seq::empty()
    } else {
        let p = passing_keys(s.drop_last(), filter, exclude);
        if passes(s.last(), filter, exclude) {
            p.push(s.last().0)
        } else {
            p
        }
    }
}

/// The key of an optional identifier.
pub open spec fn key_of<ID: EntityId>(id: Option<ID>) -> Option<u64> {
    match id {
        Some(x) => Some(x.key()),
        None => None,
    }
}

/// The filter that accepts the single kind `kind_idx`, or every kind.
pub open spec fn kind_only(kind_idx: Option<usize>) -> KindFilter {
    match kind_idx {
        Some(k) => KindFilter::Only(k),
        None => KindFilter::Any,
    }
}

/// Per row-major tile index below `n` of a board `w` tiles wide: whether the tile
/// lies in the box from `(x1, y1)` to `(x2, y2)`, both corners included.
pub open spec fn box_flags(n: nat, w: int, x1: int, y1: int, x2: int, y2: int) -> Seq<bool> {
    Seq::new(n, |i: int| x1 <= tile_of(w, i).0 <= x2 && y1 <= tile_of(w, i).1 <= y2)
}

/// A mask with exactly one bit set.
pub open spec fn single_bit(m: u64) -> bool {
    m != 0 && m & ((m - 1) as u64) == 0
}

/// Two set bits of a single-bit mask are the same bit.
proof fn lemma_single_bit(m: u64, a: u64, b: u64)
    by (bit_vector)
    requires
        m != 0,
        m & ((m - 1) as u64) == 0,
        a < 64,
        b < 64,
        (m >> a) & 1 == 1,
        (m >> b) & 1 == 1,
    ensures
        a == b,
{
}

/// A mask accepts an entry exactly when the entry's kind is below 64 and the
/// mask's bit for that kind is set, whatever the mask's other bits.
pub proof fn lemma_mask_passes(e: (u64, u8), m: u64)
    ensures
        passes_kind(e, KindFilter::Mask(m)) == (e.1 < 64 && (m >> (e.1 as u64)) & 1 == 1),
{
}

/// No kind filter accepts every entry, whatever its key and kind.
pub proof fn lemma_any_passes(e: (u64, u8))
    ensures
        passes_kind(e, KindFilter::Any),
        passes(e, KindFilter::Any, None),
{
}

/// The mask with the single bit `k` accepts exactly the entries of kind `k`.
pub proof fn lemma_single_kind_passes(e: (u64, u8), k: usize)
    requires
        k < 64,
    ensures
        passes_kind(e, KindFilter::Mask(1u64 << k)) == (e.1 == k),
{
    let m: u64 = 1u64 << k;
    let kk: u64 = k as u64;
    let b: u64 = e.1 as u64;
    assert(m == 1u64 << kk);
    if e.1 < 64 {
        assert((b < 64 && kk < 64) ==> (((1u64 << kk) >> b) & 1 == 1) == (b == kk)) by (bit_vector);
    }
}

/// No entry passes the filters: the passing keys are empty.
pub proof fn lemma_passing_keys_empty(s: Seq<(u64, u8)>, filter: KindFilter, exclude: Option<u64>)
    requires
        forall|j: int| 0 <= j < s.len() ==> !passes(#[trigger] s[j], filter, exclude),
    ensures
        passing_keys(s, filter, exclude) == Seq::<u64>::empty(),
    decreases s.len(),
{
    if s.len() > 0 {
        assert(!passes(s[s.len() - 1], filter, exclude));
        assert forall|j: int| 0 <= j < s.drop_last().len() implies !passes(#[trigger] s.drop_last()[j], filter, exclude) by {
            assert(s.drop_last()[j] == s[j]);
        }
        lemma_passing_keys_empty(s.drop_last(), filter, exclude);
    }
}

impl<ID: EntityId, const W: usize, const H: usize, const E: usize, const S: usize> SpatialHash<
    ID,
    W,
    H,
    E,
    S,
> {
    /// The keys that a query over the tiles with index below `n` reports: tile by
    /// tile in index order, for each tile whose flag in `search` is set, the passing
    /// entries of its cell in storage order.
    pub open spec fn query_keys(
        &self,
        search: Seq<bool>,
        filter: KindFilter,
        exclude: Option<u64>,
        n: nat,
    ) -> Seq<u64>
        decreases n,
    {
        if n == 0 {
            Seq::empty()
        } else {
            let p = self.query_keys(search, filter, exclude, (n - 1) as nat);
            if search[n - 1] {
                p + passing_keys(self.cell(n - 1), filter, exclude)
            } else {
                p
            }
        }
    }

    /// Returns a query builder for this spatial hash.
    pub fn query(&self) -> (q: crate::query_builder::SpatialQuery<'_, ID, W, H, E, S>)
        ensures
            q.hash() == self,
            q.kind_filter() == None::<u64>,
            q.excluded() == None::<ID>,
    {
        crate::query_builder::SpatialQuery::new(self)
    }

    /// Returns the occupancy board for the given entity kind index.
    pub fn layer(&self, kind_idx: usize) -> (board: &TileMask<W, H>)
        requires
            self.wf(),
            kind_idx < E,
        ensures
            *board == self.kind_board(kind_idx as int),
            board.wf(),
    {
        &self.kind_boards[kind_idx]
    }

    /// Returns the board of tiles where some entity is registered.
    pub fn presence(&self) -> (board: &TileMask<W, H>)
        requires
            self.wf(),
        ensures
            *board == self.presence_board(),
            board.wf(),
            forall|i: int| 0 <= i < Self::size() ==> #[trigger] board.flags()[i] == (self.cell(i).len() > 0),
    {
        &self.presence
    }

    /// The identifiers registered at tile `(x, y)`, in storage order; none off the board.
    pub fn cell_ids(&self, x: i32, y: i32) -> (ids: Vec<ID>)
        requires
            self.wf(),
        ensures
            in_grid(W as int, H as int, x as int, y as int) ==> ids@.len() == self.cell(
                tile_index(W as int, x as int, y as int),
            ).len() && forall|j: int|
                0 <= j < ids@.len() ==> #[trigger] ids@[j].key() == self.cell(
                    tile_index(W as int, x as int, y as int),
                )[j].0,
            !in_grid(W as int, H as int, x as int, y as int) ==> ids@.len() == 0,
    {
        let mut ids: Vec<ID> = Vec::new();
        match TileMask::<W, H>::tile_to_index(x, y) {
            Some(i) => {
                proof {
                    lemma_tile_index(W as int, H as int, x as int, y as int);
                }
                let len = cell_len(&self.cells[i]);
                let mut j: usize = 0;
                while j < len
                    invariant
                        j <= len,
                        i < Self::size(),
                        self.wf(),
                        len == self.cell(i as int).len(),
                        ids@.len() == j,
                        forall|q: int| 0 <= q < j ==> #[trigger] ids@[q].key() == self.cell(i as int)[q].0,
                    decreases len - j,
                {
                    let e = cell_at(&self.cells[i], j);
                    assert(self.cell(i as int)[j as int].1 < E);
                    assert(ID::is_key(self.cell(i as int)[j as int].0));
                    ids.push(ID::from_key(e.0));
                    j = j + 1;
                }
            },
            None => {},
        }
        ids
    }

    /// Whether the kinds that `filter` names exist: a single kind, or a mask with a
    /// single bit, must name a kind below `E`. (A mask with several bits, or none,
    /// may name any bits.)
    pub open spec fn filter_in_range(filter: KindFilter) -> bool {
        match filter {
            KindFilter::Any => true,
            KindFilter::Mask(m) => single_bit(m) ==> u64_trailing_zeros(m) < E,
            KindFilter::Only(k) => k < E,
        }
    }

    /// Selects the narrowest board to iterate based on `filter`.
    ///
    /// - No filter, or a mask with several bits or none → the presence board (all
    ///   entities); the per-cell kind filter then does the rest.
    /// - A single kind `k`, or a single-bit mask `1 << k` → the board of kind `k`,
    ///   skipping tiles that hold no entity of that kind.
    /// - A single kind, or a single-bit mask, naming a kind `k >= E` is a programming
    ///   error: `requires` rules it out.
    ///
    /// Every tile that holds an entry passing the kind filter is on the board selected.
    fn select_target_board(&self, filter: KindFilter) -> (board: &TileMask<W, H>)
        requires
            self.wf(),
            Self::filter_in_range(filter),
        ensures
            board.wf(),
            *board == (match filter {
                KindFilter::Mask(m) => if single_bit(m) {
                    self.kind_board(u64_trailing_zeros(m) as int)
                } else {
                    self.presence_board()
                },
                KindFilter::Only(k) => self.kind_board(k as int),
                KindFilter::Any => self.presence_board(),
            }),
            forall|i: int, j: int|
                0 <= i < Self::size() && 0 <= j < self.cell(i).len() && passes_kind(
                    #[trigger] self.cell(i)[j],
                    filter,
                ) ==> board.flags()[i],
    {
        match filter {
            KindFilter::Mask(mask) => {
                if mask != 0 && mask & (mask - 1) == 0 {
                    let k = mask.trailing_zeros() as usize;
                    proof {
                        axiom_u64_trailing_zeros(mask);
                        assert forall|i: int, j: int|
                            0 <= i < Self::size() && 0 <= j < self.cell(i).len() && passes_kind(
                                #[trigger] self.cell(i)[j],
                                filter,
                            ) implies self.kind_boards@[k as int].flags()[i] by {
                            let kk = self.cell(i)[j].1 as u64;
                            lemma_single_bit(mask, kk, k as u64);
                        }
                    }
                    return &self.kind_boards[k];
                }
                &self.presence
            },
            KindFilter::Only(k) => &self.kind_boards[k],
            KindFilter::Any => &self.presence,
        }
    }

    /// Core query kernel: visits every occupied tile of `search_mask` in index order
    /// and reports the entries there that pass the kind filter and the exclusion.
    pub(crate) fn query_with_mask(
        &self,
        search_mask: &TileMask<W, H>,
        filter: KindFilter,
        exclude: Option<ID>,
    ) -> (found: Vec<ID>)
        requires
            self.wf(),
            search_mask.wf(),
            Self::filter_in_range(filter),
        ensures
            found@.map_values(|id: ID| id.key()) == self.query_keys(
                search_mask.flags(),
                filter,
                key_of(exclude),
                Self::size() as nat,
            ),
    {
        let target_board = self.select_target_board(filter);
        let ex_key: Option<u64> = match exclude {
            Some(x) => Some(x.to_key()),
            None => None,
        };
        let n = TileMask::<W, H>::tile_count();
        let mut found: Vec<ID> = Vec::new();
        let mut i: usize = 0;
        while i < n
            invariant
                self.wf(),
                search_mask.wf(),
                target_board.wf(),
                n == Self::size(),
                i <= n,
                ex_key == key_of(exclude),
                forall|i2: int, j: int|
                    0 <= i2 < Self::size() && 0 <= j < self.cell(i2).len() && passes_kind(
                        #[trigger] self.cell(i2)[j],
                        filter,
                    ) ==> target_board.flags()[i2],
                found@.map_values(|id: ID| id.key()) == self.query_keys(
                    search_mask.flags(),
                    filter,
                    ex_key,
                    i as nat,
                ),
            decreases n - i,
        {
            let ghost prefix = found@.map_values(|id: ID| id.key());
            if search_mask.get_index(i) && target_board.get_index(i) {
                let len = cell_len(&self.cells[i]);
                let mut j: usize = 0;
                while j < len
                    invariant
                        self.wf(),
                        i < Self::size(),
                        len == self.cell(i as int).len(),
                        j <= len,
                        found@.map_values(|id: ID| id.key()) == prefix + passing_keys(
                            self.cell(i as int).take(j as int),
                            filter,
                            ex_key,
                        ),
                    decreases len - j,
                {
                    let e = cell_at(&self.cells[i], j);
                    let pass_exclude = match ex_key {
                        Some(x) => e.0 != x,
                        None => true,
                    };
                    let pass_kind = match filter {
                        KindFilter::Any => true,
                        KindFilter::Mask(mask) => e.1 < 64 && (mask >> (e.1 as u64)) & 1 == 1,
                        KindFilter::Only(k) => e.1 as usize == k,
                    };
                    let ghost before = found@;
                    proof {
                        assert(self.cell(i as int).take(j + 1).drop_last() =~= self.cell(i as int).take(j as int));
                        assert(self.cell(i as int).take(j + 1).last() == e);
                    }
                    if pass_exclude && pass_kind {
                        assert(self.cell(i as int)[j as int].1 < E);
                        assert(ID::is_key(self.cell(i as int)[j as int].0));
                        found.push(ID::from_key(e.0));
                        proof {
                            assert(found@.map_values(|id: ID| id.key()) =~= before.map_values(|id: ID| id.key()).push(e.0));
                        }
                    }
                    j = j + 1;
                }
                proof {
                    assert(self.cell(i as int).take(len as int) =~= self.cell(i as int));
                }
            } else {
                proof {
                    if search_mask.flags()[i as int] {
                        assert forall|j: int| 0 <= j < self.cell(i as int).len() implies !passes(
                            #[trigger] self.cell(i as int)[j],
                            filter,
                            ex_key,
                        ) by {}
                        lemma_passing_keys_empty(self.cell(i as int), filter, ex_key);
                        assert(prefix + Seq::<u64>::empty() =~= prefix);
                    }
                }
            }
            i = i + 1;
        }
        found
    }

    /// The entities registered within the square `[center - radius, center + radius]` on
    /// both axes, but `exclude`, of kind `kind_idx` if one is given, tile by tile in
    /// row-major order (an entity is reported once per tile it occupies there).
    pub fn query_filtered_radius_callback(
        &self,
        center: (i32, i32),
        radius: i32,
        exclude: ID,
        kind_idx: Option<usize>,
    ) -> (found: Vec<ID>)
        requires
            self.wf(),
            square_fits(center, radius),
            kind_idx matches Some(k) ==> k < E,
        ensures
            found@.map_values(|id: ID| id.key()) == self.query_keys(
                box_flags(
                    Self::size() as nat,
                    W as int,
                    center.0 - radius,
                    center.1 - radius,
                    center.0 + radius,
                    center.1 + radius,
                ),
                kind_only(kind_idx),
                Some(exclude.key()),
                Self::size() as nat,
            ),
    {
        let search = TileMask::<W, H>::mask_box(
            center.0 - radius,
            center.1 - radius,
            center.0 + radius,
            center.1 + radius,
        );
        proof {
            assert(search.flags() =~= box_flags(
                Self::size() as nat,
                W as int,
                center.0 - radius,
                center.1 - radius,
                center.0 + radius,
                center.1 + radius,
            ));
        }
        self.query_with_mask(&search, Self::single_kind_filter(kind_idx), Some(exclude))
    }

    /// The entities registered on the tiles of `mask`, but `exclude`, of kind
    /// `kind_idx` if one is given, tile by tile in row-major order.
    pub fn query_mask_callback(&self, mask: &TileMask<W, H>, kind_idx: Option<usize>, exclude: ID) -> (found: Vec<ID>)
        requires
            self.wf(),
            mask.wf(),
            kind_idx matches Some(k) ==> k < E,
        ensures
            found@.map_values(|id: ID| id.key()) == self.query_keys(
                mask.flags(),
                kind_only(kind_idx),
                Some(exclude.key()),
                Self::size() as nat,
            ),
    {
        self.query_with_mask(mask, Self::single_kind_filter(kind_idx), Some(exclude))
    }

    /// The entities registered on the tiles of `mask` that lie in the box from
    /// `min_tile` to `max_tile` (both included), but `exclude`, of kind `kind_idx` if
    /// one is given, tile by tile in row-major order.
    pub fn query_mask_bounded_callback(
        &self,
        mask: &TileMask<W, H>,
        kind_idx: Option<usize>,
        exclude: ID,
        min_tile: (i32, i32),
        max_tile: (i32, i32),
    ) -> (found: Vec<ID>)
        requires
            self.wf(),
            mask.wf(),
            kind_idx matches Some(k) ==> k < E,
        ensures
            found@.map_values(|id: ID| id.key()) == self.query_keys(
                Seq::new(
                    Self::size() as nat,
                    |i: int|
                        mask.flags()[i] && box_flags(
                            Self::size() as nat,
                            W as int,
                            min_tile.0 as int,
                            min_tile.1 as int,
                            max_tile.0 as int,
                            max_tile.1 as int,
                        )[i],
                ),
                kind_only(kind_idx),
                Some(exclude.key()),
                Self::size() as nat,
            ),
    {
        let bounds = TileMask::<W, H>::mask_box(min_tile.0, min_tile.1, max_tile.0, max_tile.1);
        let search = mask.intersection(&bounds);
        proof {
            let target = Seq::new(
                Self::size() as nat,
                |i: int|
                    mask.flags()[i] && box_flags(
                        Self::size() as nat,
                        W as int,
                        min_tile.0 as int,
                        min_tile.1 as int,
                        max_tile.0 as int,
                        max_tile.1 as int,
                    )[i],
            );
            assert forall|i: int| 0 <= i < Self::size() implies #[trigger] search.flags()[i] == target[i] by {
                search.lemma_flag_at(i);
                mask.lemma_flag_at(i);
                bounds.lemma_flag_at(i);
            }
            assert(search.flags() =~= target);
        }
        self.query_with_mask(&search, Self::single_kind_filter(kind_idx), Some(exclude))
    }

    /// The filter that accepts the single kind `kind_idx`, or every kind.
    fn single_kind_filter(kind_idx: Option<usize>) -> (filter: KindFilter)
        requires
            kind_idx matches Some(k) ==> k < E,
        ensures
            filter == kind_only(kind_idx),
            Self::filter_in_range(filter),
    {
        match kind_idx {
            Some(k) => KindFilter::Only(k),
            None => KindFilter::Any,
        }
    }

    /// Returns `true` if any entity occupies the given tile.
    ///
    /// Returns `false` for out-of-bounds coordinates.
    pub fn is_tile_occupied(&self, tile_x: i32, tile_y: i32) -> (occupied: bool)
        requires
            self.wf(),
        ensures
            occupied == self.presence_board()@.contains((tile_x as int, tile_y as int)),
            occupied == (in_grid(W as int, H as int, tile_x as int, tile_y as int) && self.cell(
                tile_index(W as int, tile_x as int, tile_y as int),
            ).len() > 0),
    {
        if tile_x < 0 || tile_y < 0 || tile_x >= (W as i32) || tile_y >= (H as i32) {
            return false;
        }
        proof {
            lemma_tile_index(W as int, H as int, tile_x as int, tile_y as int);
        }
        self.presence.get(tile_x, tile_y)
    }
}

} // verus!
