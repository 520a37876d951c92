//! The spatial hash: which entities occupy which tiles of a `W` x `H` board,
//! with an occupancy board per entity kind and static layers such as terrain.
use vstd::prelude::*;
use core::marker::PhantomData;
use crate::entity_id::EntityId;
use crate::geometry::square_fits;
use crate::grid::{dims_fit, in_grid, tile_of};
use crate::storage::{
    Cell, EntityTable, EntryData, cell_entries, table_contents, cell_new, random_state,
    table_with_hasher,
};
use crate::tile_mask::{TileMask, square_all_in};
use self::consistency::key_count;

pub mod entity;
pub mod query;
pub mod static_layer;
pub mod consistency;

verus! {

/// What the spatial hash records of a registered entity.
#[derive(Debug, Clone, Copy, PartialEq, Eq)]
pub struct EntityEntry {
    /// Tile-space center of the entity's occupied region.
    pub center: (i32, i32),
    /// Half-size of the occupied square: covers `[center - radius, center + radius]` on each axis.
    pub radius: i32,
    /// Index into the kind boards; identifies what kind of entity this is.
    pub kind_idx: usize,
}

/// Tracks the tiles that entities occupy on a `W` x `H` board.
///
/// `ID` identifies entities, `E` is the number of entity kinds (each with its own
/// occupancy board) and `S` the number of static layers (terrain and the like).
pub struct SpatialHash<ID, const W: usize, const H: usize, const E: usize, const S: usize> {
    /// Per tile, by row-major index: the (entity key, kind index) pairs registered there.
    cells: Vec<Cell>,
    /// Per entity key: center, radius and kind of its registration.
    entity_info: EntityTable,
    /// The tiles where at least one entity is registered.
    presence: TileMask<W, H>,
    /// Per kind: the tiles where an entity of that kind may be registered.
    kind_boards: Vec<TileMask<W, H>>,
    /// Copies of static layers such as terrain.
    static_layers: Vec<TileMask<W, H>>,
    /// Per static layer: its erosions by radius 1 and 2, as of the last full sync.
    eroded_layers: Vec<Vec<TileMask<W, H>>>,
    /// Per static layer: the board that the last full sync copied.
    synced: Ghost<Seq<Set<(int, int)>>>,
    /// Change-detection token of the static layers, passed in by the caller.
    static_revision: u32,
    _id: PhantomData<ID>,
}

/// Whether entry `e` (center x, center y, radius, kind) covers tile `(x, y)`.
pub open spec fn covers(e: EntryData, x: int, y: int) -> bool {
    e.0 - e.2 <= x <= e.0 + e.2 && e.1 - e.2 <= y <= e.1 + e.2
}

/// The entry that the spatial hash keeps for `center`, `radius` and `kind_idx`.
pub open spec fn entry_data(center: (i32, i32), radius: i32, kind_idx: usize) -> EntryData {
    (center.0, center.1, radius, kind_idx)
}

/// Position of the first entry of `s` filed under `key` at or after `j`, or the
/// length of `s` when there is none.
pub open spec fn find_key_from(s: Seq<(u64, u8)>, key: u64, j: int) -> int
    decreases s.len() - j,
{
    if j >= s.len() {
        s.len() as int
    } else if s[j].0 == key {
        j
    } else {
        find_key_from(s, key, j + 1)
    }
}

/// `s` with its first entry filed under `key` swapped out for its last entry and
/// the last position dropped; `s` itself when no entry is filed under `key`.
pub open spec fn without_key(s: Seq<(u64, u8)>, key: u64) -> Seq<(u64, u8)> {
    let p = find_key_from(s, key, 0);
    if 0 <= p < s.len() {
        s.update(p, s.last()).drop_last()
    } else {
        s
    }
}

/// Whether some entry of `s` has kind `k`.
pub open spec fn has_kind(s: Seq<(u64, u8)>, k: int) -> bool {
    exists|j: int| 0 <= j < s.len() && #[trigger] s[j].1 == k
}

/// The tiles whose whole square of radius `r` lies in `s`, on a `w` x `h` board.
pub open spec fn erosion(w: usize, h: usize, s: Set<(int, int)>, r: int) -> Set<(int, int)> {
    Set::new(|t: (int, int)| in_grid(w as int, h as int, t.0, t.1) && square_all_in(s, t.0, t.1, r))
}

/// Nothing survives the erosion of the empty set by a radius of zero or more.
pub proof fn lemma_erosion_empty(w: usize, h: usize, r: int)
    requires
        r >= 0,
    ensures
        erosion(w, h, Set::<(int, int)>::empty(), r) == Set::<(int, int)>::empty(),
{
    assert forall|t: (int, int)| !#[trigger] erosion(w, h, Set::<(int, int)>::empty(), r).contains(t) by {
        if square_all_in(Set::<(int, int)>::empty(), t.0, t.1, r) {
            assert(Set::<(int, int)>::empty().contains((t.0, t.1)));
        }
    }
    assert(erosion(w, h, Set::<(int, int)>::empty(), r) =~= Set::<(int, int)>::empty());
}

pub proof fn lemma_find_key_from(s: Seq<(u64, u8)>, key: u64, j: int)
    requires
        0 <= j <= s.len(),
    ensures
        j <= find_key_from(s, key, j) <= s.len(),
        find_key_from(s, key, j) < s.len() ==> s[find_key_from(s, key, j)].0 == key,
        forall|q: int| j <= q < find_key_from(s, key, j) ==> s[q].0 != key,
    decreases s.len() - j,
{
    if j < s.len() && s[j].0 != key {
        lemma_find_key_from(s, key, j + 1);
    }
}

/// Every entry that remains after taking out `key` was an entry before, and the
/// length drops by one exactly when an entry was filed under `key`.
pub proof fn lemma_without_key(s: Seq<(u64, u8)>, key: u64)
    ensures
        forall|j: int|
            #![trigger without_key(s, key)[j]]
            0 <= j < without_key(s, key).len() ==> exists|q: int|
                0 <= q < s.len() && #[trigger] s[q] == without_key(s, key)[j],
        without_key(s, key).len() == (if find_key_from(s, key, 0) < s.len() {
            s.len() - 1
        } else {
            s.len() as int
        }),
{
    lemma_find_key_from(s, key, 0);
    let p = find_key_from(s, key, 0);
    let t = without_key(s, key);
    assert forall|j: int| #![trigger t[j]] 0 <= j < t.len() implies exists|q: int|
        0 <= q < s.len() && #[trigger] s[q] == t[j] by {
        if p < s.len() {
            if j == p {
                assert(s[s.len() - 1] == t[j]);
            } else {
                assert(s[j] == t[j]);
            }
        } else {
            assert(s[j] == t[j]);
        }
    }
}

impl<ID: EntityId, const W: usize, const H: usize, const E: usize, const S: usize> SpatialHash<
    ID,
    W,
    H,
    E,
    S,
> {
    /// The number of tiles of the board.
    pub open spec fn size() -> int {
        W as int * H as int
    }

    /// The entries registered at the tile with row-major index `i`.
    pub closed spec fn cell(&self, i: int) -> Seq<(u64, u8)> {
        cell_entries(self.cells@[i])
    }

    /// The record of each registered entity, by key.
    pub closed spec fn entities(&self) -> Map<u64, EntryData> {
        table_contents(self.entity_info)
    }

    /// The board of tiles where some entity is registered.
    pub closed spec fn presence_board(&self) -> TileMask<W, H> {
        self.presence
    }

    /// The occupancy board of kind `k`.
    pub closed spec fn kind_board(&self, k: int) -> TileMask<W, H> {
        self.kind_boards@[k]
    }

    /// Whether the occupancy board of kind `k` holds the tile with index `i`.
    pub open spec fn kind_flag(&self, k: int, i: int) -> bool {
        self.kind_board(k).flags()[i]
    }

    /// Static layer `l`.
    pub closed spec fn static_board(&self, l: int) -> TileMask<W, H> {
        self.static_layers@[l]
    }

    /// The board that the last full sync of static layer `l` copied.
    pub closed spec fn synced_layer(&self, l: int) -> Set<(int, int)> {
        self.synced@[l]
    }

    /// The static layers' change-detection token.
    pub closed spec fn revision(&self) -> u32 {
        self.static_revision
    }

    /// Everything that only the static-layer operations change.
    pub closed spec fn statics(&self) -> (Seq<TileMask<W, H>>, Seq<Seq<TileMask<W, H>>>, Seq<Set<(int, int)>>, u32) {
        (self.static_layers@, self.eroded_layers@.map_values(|v: Vec<TileMask<W, H>>| v@), self.synced@, self.static_revision)
    }

    /// Whether record `e` is one that the spatial hash can hold: a known kind that a
    /// cell can store (a `u8`) and a square whose corners fit in `i32`.
    pub open spec fn entry_ok(e: EntryData) -> bool {
        e.3 < E && e.3 < 256 && square_fits((e.0, e.1), e.2)
    }

    /// The invariant of the spatial hash.
    ///
    /// - The board sizes can be addressed.
    /// - A tile is on the presence board exactly when some entry is registered there.
    /// - Each entry's kind is known, its kind board holds the tile, and its key is
    ///   an identifier's.
    /// - Each cached erosion is that of the board last synced into its layer.
    pub closed spec fn wf(&self) -> bool {
        &&& dims_fit(W, H)
        &&& self.cells@.len() == Self::size()
        &&& self.presence.wf()
        &&& self.kind_boards@.len() == E
        &&& (forall|k: int| 0 <= k < E ==> #[trigger] self.kind_boards@[k].wf())
        &&& self.static_layers@.len() == S
        &&& (forall|l: int| 0 <= l < S ==> #[trigger] self.static_layers@[l].wf())
        &&& self.eroded_layers@.len() == S
        &&& self.synced@.len() == S
        &&& (forall|l: int|
            0 <= l < S ==> {
                &&& #[trigger] self.eroded_layers@[l]@.len() == 2
                &&& self.eroded_layers@[l]@[0].wf()
                &&& self.eroded_layers@[l]@[1].wf()
                &&& self.eroded_layers@[l]@[0]@ == erosion(W, H, self.synced@[l], 1)
                &&& self.eroded_layers@[l]@[1]@ == erosion(W, H, self.synced@[l], 2)
            })
        &&& (forall|i: int|
            0 <= i < Self::size() ==> #[trigger] self.presence.flags()[i] == (self.cell(i).len() > 0))
        &&& (forall|i: int, j: int|
            0 <= i < Self::size() && 0 <= j < self.cell(i).len() ==> {
                &&& #[trigger] self.cell(i)[j].1 < E
                &&& self.kind_boards@[self.cell(i)[j].1 as int].flags()[i]
                &&& ID::is_key(self.cell(i)[j].0)
            })
        &&& (forall|key: u64| #[trigger] self.entities().contains_key(key) ==> Self::entry_ok(self.entities()[key]))
    }

    /// The parts of the state that entity operations leave alone agree.
    pub open spec fn frame_same(&self, post: &Self) -> bool {
        post.statics() == self.statics()
    }

    /// The frame spelled out: when `post` agrees with `self` on what only the
    /// static-layer operations change, it has the same static layers, the same
    /// synced copies (so the same erosion caches) and the same revision.
    pub proof fn lemma_frame(&self, post: &Self)
        requires
            self.frame_same(post),
        ensures
            post.revision() == self.revision(),
            forall|l: int| #[trigger] post.static_board(l) == self.static_board(l),
            forall|l: int| #[trigger] post.synced_layer(l) == self.synced_layer(l),
    {
    }

    /// `post` is `self` with `entry` appended to the cell of every tile of `region`,
    /// and those tiles added to the board of kind `kind`.
    pub open spec fn pushed_over(
        &self,
        post: &Self,
        region: spec_fn(int, int) -> bool,
        entry: (u64, u8),
        kind: int,
    ) -> bool {
        &&& forall|i: int|
            0 <= i < Self::size() ==> #[trigger] post.cell(i) == (if region(
                tile_of(W as int, i).0,
                tile_of(W as int, i).1,
            ) {
                self.cell(i).push(entry)
            } else {
                self.cell(i)
            })
        &&& forall|k: int, i: int|
            0 <= k < E && 0 <= i < Self::size() ==> #[trigger] post.kind_flag(k, i) == (if k == kind
                && region(tile_of(W as int, i).0, tile_of(W as int, i).1) {
                true
            } else {
                self.kind_flag(k, i)
            })
        &&& self.frame_same(post)
    }

    /// `post` is `self` with the first entry under `key` taken out of the cell of every
    /// tile of `region`; where a cell is left with no entry of kind `kind`, its tile
    /// leaves that kind's board.
    pub open spec fn removed_over(
        &self,
        post: &Self,
        region: spec_fn(int, int) -> bool,
        key: u64,
        kind: int,
    ) -> bool {
        &&& forall|i: int|
            0 <= i < Self::size() ==> #[trigger] post.cell(i) == (if region(
                tile_of(W as int, i).0,
                tile_of(W as int, i).1,
            ) {
                without_key(self.cell(i), key)
            } else {
                self.cell(i)
            })
        &&& forall|k: int, i: int|
            0 <= k < E && 0 <= i < Self::size() ==> #[trigger] post.kind_flag(k, i) == (if k == kind
                && region(tile_of(W as int, i).0, tile_of(W as int, i).1) {
                self.kind_flag(k, i) && has_kind(post.cell(i), kind)
            } else {
                self.kind_flag(k, i)
            })
        &&& self.frame_same(post)
    }

    /// Two steps over disjoint regions make one step over their union.
    pub proof fn lemma_pushed_compose(
        a: &Self,
        b: &Self,
        c: &Self,
        r1: spec_fn(int, int) -> bool,
        r2: spec_fn(int, int) -> bool,
        entry: (u64, u8),
        kind: int,
    )
        requires
            a.pushed_over(b, r1, entry, kind),
            b.pushed_over(c, r2, entry, kind),
            forall|x: int, y: int| !(#[trigger] r1(x, y) && #[trigger] r2(x, y)),
        ensures
            a.pushed_over(c, |x: int, y: int| r1(x, y) || r2(x, y), entry, kind),
    {
        assert forall|i: int| 0 <= i < Self::size() implies #[trigger] c.cell(i) == (if (|x: int, y: int| r1(x, y) || r2(x, y))(
            tile_of(W as int, i).0,
            tile_of(W as int, i).1,
        ) {
            a.cell(i).push(entry)
        } else {
            a.cell(i)
        }) by {
        }
        assert forall|k: int, i: int|
            0 <= k < E && 0 <= i < Self::size() implies #[trigger] c.kind_flag(k, i) == (if k == kind
                && (|x: int, y: int| r1(x, y) || r2(x, y))(tile_of(W as int, i).0, tile_of(W as int, i).1) {
                true
            } else {
                a.kind_flag(k, i)
            }) by {
        }
    }

    /// Two steps over disjoint regions make one step over their union.
    pub proof fn lemma_removed_compose(
        a: &Self,
        b: &Self,
        c: &Self,
        r1: spec_fn(int, int) -> bool,
        r2: spec_fn(int, int) -> bool,
        key: u64,
        kind: int,
    )
        requires
            a.removed_over(b, r1, key, kind),
            b.removed_over(c, r2, key, kind),
            forall|x: int, y: int| !(#[trigger] r1(x, y) && #[trigger] r2(x, y)),
        ensures
            a.removed_over(c, |x: int, y: int| r1(x, y) || r2(x, y), key, kind),
    {
        assert forall|i: int| 0 <= i < Self::size() implies #[trigger] c.cell(i) == (if (|x: int, y: int| r1(x, y) || r2(x, y))(
            tile_of(W as int, i).0,
            tile_of(W as int, i).1,
        ) {
            without_key(a.cell(i), key)
        } else {
            a.cell(i)
        }) by {
        }
        assert forall|k: int, i: int|
            0 <= k < E && 0 <= i < Self::size() implies #[trigger] c.kind_flag(k, i) == (if k == kind
                && (|x: int, y: int| r1(x, y) || r2(x, y))(tile_of(W as int, i).0, tile_of(W as int, i).1) {
                a.kind_flag(k, i) && has_kind(c.cell(i), kind)
            } else {
                a.kind_flag(k, i)
            }) by {
        }
    }

    /// A step stays the same step over any region that agrees on the board's tiles.
    pub proof fn lemma_pushed_region(
        a: &Self,
        b: &Self,
        r1: spec_fn(int, int) -> bool,
        r2: spec_fn(int, int) -> bool,
        entry: (u64, u8),
        kind: int,
    )
        requires
            a.pushed_over(b, r1, entry, kind),
            forall|x: int, y: int| in_grid(W as int, H as int, x, y) ==> #[trigger] r1(x, y) == #[trigger] r2(x, y),
        ensures
            a.pushed_over(b, r2, entry, kind),
    {
        assert forall|i: int| #![trigger tile_of(W as int, i)] 0 <= i < Self::size() implies r1(tile_of(W as int, i).0, tile_of(W as int, i).1)
            == r2(tile_of(W as int, i).0, tile_of(W as int, i).1) by {
            crate::grid::lemma_index_tile(W as int, H as int, i);
        }
        assert forall|i: int| 0 <= i < Self::size() implies #[trigger] b.cell(i) == (if r2(
            tile_of(W as int, i).0,
            tile_of(W as int, i).1,
        ) {
            a.cell(i).push(entry)
        } else {
            a.cell(i)
        }) by {
            assert(r1(tile_of(W as int, i).0, tile_of(W as int, i).1)
                == r2(tile_of(W as int, i).0, tile_of(W as int, i).1));
        }
        assert forall|k: int, i: int|
            0 <= k < E && 0 <= i < Self::size() implies #[trigger] b.kind_flag(k, i) == (if k == kind
                && r2(tile_of(W as int, i).0, tile_of(W as int, i).1) {
                true
            } else {
                a.kind_flag(k, i)
            }) by {
            assert(r1(tile_of(W as int, i).0, tile_of(W as int, i).1)
                == r2(tile_of(W as int, i).0, tile_of(W as int, i).1));
        }
    }

    /// A step stays the same step over any region that agrees on the board's tiles.
    pub proof fn lemma_removed_region(
        a: &Self,
        b: &Self,
        r1: spec_fn(int, int) -> bool,
        r2: spec_fn(int, int) -> bool,
        key: u64,
        kind: int,
    )
        requires
            a.removed_over(b, r1, key, kind),
            forall|x: int, y: int| in_grid(W as int, H as int, x, y) ==> #[trigger] r1(x, y) == #[trigger] r2(x, y),
        ensures
            a.removed_over(b, r2, key, kind),
    {
        assert forall|i: int| #![trigger tile_of(W as int, i)] 0 <= i < Self::size() implies r1(tile_of(W as int, i).0, tile_of(W as int, i).1)
            == r2(tile_of(W as int, i).0, tile_of(W as int, i).1) by {
            crate::grid::lemma_index_tile(W as int, H as int, i);
        }
        assert forall|i: int| 0 <= i < Self::size() implies #[trigger] b.cell(i) == (if r2(
            tile_of(W as int, i).0,
            tile_of(W as int, i).1,
        ) {
            without_key(a.cell(i), key)
        } else {
            a.cell(i)
        }) by {
            assert(r1(tile_of(W as int, i).0, tile_of(W as int, i).1)
                == r2(tile_of(W as int, i).0, tile_of(W as int, i).1));
        }
        assert forall|k: int, i: int|
            0 <= k < E && 0 <= i < Self::size() implies #[trigger] b.kind_flag(k, i) == (if k == kind
                && r2(tile_of(W as int, i).0, tile_of(W as int, i).1) {
                a.kind_flag(k, i) && has_kind(b.cell(i), kind)
            } else {
                a.kind_flag(k, i)
            }) by {
            assert(r1(tile_of(W as int, i).0, tile_of(W as int, i).1)
                == r2(tile_of(W as int, i).0, tile_of(W as int, i).1));
        }
    }

    /// `post` holds the same cells, kind boards, records and static layers as `self`.
    pub open spec fn same_contents(&self, post: &Self) -> bool {
        &&& forall|i: int| 0 <= i < Self::size() ==> #[trigger] post.cell(i) == self.cell(i)
        &&& forall|k: int, i: int|
            0 <= k < E && 0 <= i < Self::size() ==> #[trigger] post.kind_flag(k, i) == self.kind_flag(k, i)
        &&& post.entities() == self.entities()
        &&& self.frame_same(post)
    }

    /// `mid` is `self` with registration `o` removed over its square, and `post` is
    /// `mid` with `e` registered over its square.
    pub open spec fn rebuilt_via(&self, mid: &Self, post: &Self, key: u64, o: EntryData, e: EntryData) -> bool {
        &&& self.removed_over(mid, |a: int, b: int| covers(o, a, b), key, o.3 as int)
        &&& mid.pushed_over(post, |a: int, b: int| covers(e, a, b), (key, e.3 as u8), e.3 as int)
    }

    /// `mid` is `self` with the entry under `key` taken out of the tiles that `o`
    /// covers and `e` does not, and `post` is `mid` with the entry added to the tiles
    /// that `e` covers and `o` does not.
    pub open spec fn moved_via(&self, mid: &Self, post: &Self, key: u64, o: EntryData, e: EntryData) -> bool {
        &&& self.removed_over(mid, |a: int, b: int| covers(o, a, b) && !covers(e, a, b), key, o.3 as int)
        &&& mid.pushed_over(
            post,
            |a: int, b: int| covers(e, a, b) && !covers(o, a, b),
            (key, e.3 as u8),
            e.3 as int,
        )
    }

    /// `post` is `self` after the registration under `key` is brought to record `e`:
    ///
    /// 1. not registered: `e` is registered over its square;
    /// 2. registered with record `e` already: nothing changes;
    /// 3. registered with another radius or kind: the old registration is removed
    ///    over its square, then `e` is registered over its own;
    /// 4. registered with another center only: the entry leaves the tiles of the old
    ///    square that the new one lacks and joins the tiles of the new square that the
    ///    old one lacked; the other tiles keep their cells.
    pub open spec fn updated(&self, post: &Self, key: u64, e: EntryData) -> bool {
        let ents = self.entities();
        if !ents.contains_key(key) {
            &&& self.pushed_over(post, |a: int, b: int| covers(e, a, b), (key, e.3 as u8), e.3 as int)
            &&& post.entities() == ents.insert(key, e)
        } else {
            let o = ents[key];
            if o == e {
                self.same_contents(post)
            } else if o.2 != e.2 || o.3 != e.3 {
                &&& exists|mid: Self| #[trigger] self.rebuilt_via(&mid, post, key, o, e)
                &&& post.entities() == ents.insert(key, e)
            } else {
                &&& exists|mid: Self| #[trigger] self.moved_via(&mid, post, key, o, e)
                &&& post.entities() == ents.insert(key, e)
            }
        }
    }

    /// The invariant survives a change confined to the tile with index `idx`, as long
    /// as that tile's presence flag and entries keep to it.
    proof fn lemma_wf_local(old: &Self, new: &Self, idx: int)
        requires
            old.wf(),
            0 <= idx < Self::size(),
            new.cells@.len() == old.cells@.len(),
            new.presence.wf(),
            new.kind_boards@.len() == E,
            forall|k: int| 0 <= k < E ==> #[trigger] new.kind_boards@[k].wf(),
            new.static_layers == old.static_layers,
            new.eroded_layers == old.eroded_layers,
            new.synced == old.synced,
            new.entities() == old.entities(),
            forall|i: int|
                0 <= i < Self::size() && i != idx ==> #[trigger] new.cell(i) == old.cell(i)
                    && new.presence.flags()[i] == old.presence.flags()[i],
            forall|k: int, i: int|
                0 <= k < E && 0 <= i < Self::size() && i != idx ==> #[trigger] new.kind_flag(k, i)
                    == old.kind_flag(k, i),
            new.presence.flags()[idx] == (new.cell(idx).len() > 0),
            forall|j: int|
                0 <= j < new.cell(idx).len() ==> {
                    &&& #[trigger] new.cell(idx)[j].1 < E
                    &&& new.kind_flag(new.cell(idx)[j].1 as int, idx)
                    &&& ID::is_key(new.cell(idx)[j].0)
                },
        ensures
            new.wf(),
    {
        assert forall|i: int| 0 <= i < Self::size() implies #[trigger] new.presence.flags()[i] == (new.cell(i).len() > 0) by {
            if i != idx {
                assert(new.cell(i) == old.cell(i));
            }
        }
        assert forall|i: int, j: int|
            0 <= i < Self::size() && 0 <= j < new.cell(i).len() implies {
                &&& #[trigger] new.cell(i)[j].1 < E
                &&& new.kind_boards@[new.cell(i)[j].1 as int].flags()[i]
                &&& ID::is_key(new.cell(i)[j].0)
            } by {
            if i != idx {
                assert(new.cell(i) == old.cell(i));
                assert(new.kind_flag(new.cell(i)[j].1 as int, i) == old.kind_flag(new.cell(i)[j].1 as int, i));
            } else {
                assert(new.kind_flag(new.cell(idx)[j].1 as int, idx));
            }
        }
    }

    /// A step stays the same step when only the record table changes afterwards.
    proof fn lemma_pushed_frame(
        a: &Self,
        b: &Self,
        c: &Self,
        region: spec_fn(int, int) -> bool,
        entry: (u64, u8),
        kind: int,
    )
        requires
            a.pushed_over(b, region, entry, kind),
            c.cells == b.cells,
            c.presence == b.presence,
            c.kind_boards == b.kind_boards,
            c.static_layers == b.static_layers,
            c.eroded_layers == b.eroded_layers,
            c.synced == b.synced,
            c.static_revision == b.static_revision,
        ensures
            a.pushed_over(c, region, entry, kind),
    {
        assert(c.statics() == b.statics());
        assert forall|i: int| 0 <= i < Self::size() implies #[trigger] c.cell(i) == b.cell(i) by {}
        assert forall|k: int, i: int| 0 <= k < E && 0 <= i < Self::size() implies #[trigger] c.kind_flag(k, i)
            == b.kind_flag(k, i) by {}
    }

    /// The invariant survives a change of the record table alone, as long as every
    /// record in it is one that the spatial hash can hold.
    proof fn lemma_wf_entities(a: &Self, b: &Self)
        requires
            a.wf(),
            b.cells == a.cells,
            b.presence == a.presence,
            b.kind_boards == a.kind_boards,
            b.static_layers == a.static_layers,
            b.eroded_layers == a.eroded_layers,
            b.synced == a.synced,
            forall|key: u64| #[trigger] b.entities().contains_key(key) ==> Self::entry_ok(b.entities()[key]),
        ensures
            b.wf(),
    {
        assert forall|i: int| 0 <= i < Self::size() implies #[trigger] b.presence.flags()[i] == (b.cell(i).len() > 0) by {
            assert(b.cell(i) == a.cell(i));
        }
        assert forall|i: int, j: int|
            0 <= i < Self::size() && 0 <= j < b.cell(i).len() implies {
                &&& #[trigger] b.cell(i)[j].1 < E
                &&& b.kind_boards@[b.cell(i)[j].1 as int].flags()[i]
                &&& ID::is_key(b.cell(i)[j].0)
            } by {
            assert(b.cell(i) == a.cell(i));
        }
    }

    /// A well-formed spatial hash has supported board sizes and number of kinds.
    pub proof fn lemma_wf_params(&self)
        requires
            self.wf(),
        ensures
            Self::params_ok(),
    {
    }

    /// Whether the board sizes are ones that the spatial hash can address.
    pub open spec fn params_ok() -> bool {
        dims_fit(W, H)
    }
}

impl<ID: EntityId, const W: usize, const H: usize, const E: usize, const S: usize> Default for SpatialHash<
    ID,
    W,
    H,
    E,
    S,
> {
    /// An empty spatial hash: no entity, every board empty, revision 0. It is
    /// well-formed whenever the board sizes can be addressed.
    fn default() -> (hash: Self)
        ensures
            Self::params_ok() ==> {
                &&& hash.wf()
                &&& hash.entities().dom() == Set::<u64>::empty()
                &&& forall|i: int| 0 <= i < Self::size() ==> #[trigger] hash.cell(i).len() == 0
                &&& forall|k: int, i: int| 0 <= k < E && 0 <= i < Self::size() ==> !#[trigger] hash.kind_flag(k, i)
                &&& forall|l: int| 0 <= l < S ==> #[trigger] hash.static_board(l)@ == Set::<(int, int)>::empty()
                &&& hash.revision() == 0
                &&& hash.consistent()
            },
    {
        let ok = TileMask::<W, H>::dims_ok();
        let n = if ok { TileMask::<W, H>::tile_count() } else { 0 };
        let e = if ok { E } else { 0 };
        let s = if ok { S } else { 0 };
        let mut cells: Vec<Cell> = Vec::new();
        let mut i: usize = 0;
        while i < n
            invariant
                i <= n,
                ok ==> n == Self::size(),
                ok ==> dims_fit(W, H),
                cells@.len() == i,
                forall|j: int| 0 <= j < i ==> #[trigger] cell_entries(cells@[j]).len() == 0,
            decreases n - i,
        {
            cells.push(cell_new());
            i = i + 1;
        }
        let presence: TileMask<W, H> = if ok { TileMask::new() } else { TileMask::default() };
        let mut kind_boards: Vec<TileMask<W, H>> = Vec::new();
        let mut k: usize = 0;
        while k < e
            invariant
                k <= e,
                e == (if ok { E } else { 0 }),
                ok ==> dims_fit(W, H),
                kind_boards@.len() == k,
                forall|j: int|
                    0 <= j < k ==> #[trigger] kind_boards@[j].wf() && kind_boards@[j]@
                        == Set::<(int, int)>::empty() && forall|q: int|
                        0 <= q < Self::size() ==> !kind_boards@[j].flags()[q],
            decreases e - k,
        {
            kind_boards.push(TileMask::new());
            k = k + 1;
        }
        let mut static_layers: Vec<TileMask<W, H>> = Vec::new();
        let mut eroded_layers: Vec<Vec<TileMask<W, H>>> = Vec::new();
        let mut l: usize = 0;
        while l < s
            invariant
                l <= s,
                s == (if ok { S } else { 0 }),
                ok ==> dims_fit(W, H),
                static_layers@.len() == l,
                eroded_layers@.len() == l,
                forall|j: int|
                    0 <= j < l ==> #[trigger] static_layers@[j].wf() && static_layers@[j]@
                        == Set::<(int, int)>::empty(),
                forall|j: int|
                    0 <= j < l ==> {
                        &&& #[trigger] eroded_layers@[j]@.len() == 2
                        &&& eroded_layers@[j]@[0].wf()
                        &&& eroded_layers@[j]@[1].wf()
                        &&& eroded_layers@[j]@[0]@ == Set::<(int, int)>::empty()
                        &&& eroded_layers@[j]@[1]@ == Set::<(int, int)>::empty()
                    },
            decreases s - l,
        {
            static_layers.push(TileMask::new());
            let mut pair: Vec<TileMask<W, H>> = Vec::new();
            pair.push(TileMask::new());
            pair.push(TileMask::new());
            let ghost pv = pair@;
            eroded_layers.push(pair);
            assert(eroded_layers@[l as int]@ == pv);
            l = l + 1;
        }
        let hash = SpatialHash {
            cells,
            entity_info: table_with_hasher(random_state()),
            presence,
            kind_boards,
            static_layers,
            eroded_layers,
            synced: Ghost(Seq::new(S as nat, |l: int| Set::<(int, int)>::empty())),
            static_revision: 0,
            _id: PhantomData,
        };
        proof {
            if ok {
                lemma_erosion_empty(W, H, 1);
                lemma_erosion_empty(W, H, 2);
                assert(hash.cells@.len() == Self::size());
                assert forall|l: int| 0 <= l < S implies {
                    &&& #[trigger] hash.eroded_layers@[l]@.len() == 2
                    &&& hash.eroded_layers@[l]@[0].wf()
                    &&& hash.eroded_layers@[l]@[1].wf()
                    &&& hash.eroded_layers@[l]@[0]@ == erosion(W, H, hash.synced@[l], 1)
                    &&& hash.eroded_layers@[l]@[1]@ == erosion(W, H, hash.synced@[l], 2)
                } by {
                    assert(hash.synced@[l] == Set::<(int, int)>::empty());
                }
                assert forall|i: int| 0 <= i < Self::size() implies #[trigger] hash.presence.flags()[i] == (hash.cell(i).len() > 0) by {
                    assert(cell_entries(hash.cells@[i]).len() == 0);
                }
                assert(hash.wf());
                assert forall|k: int, i: int| 0 <= k < E && 0 <= i < Self::size() implies !#[trigger] hash.kind_flag(k, i) by {
                    assert(hash.kind_boards@[k].wf());
                }
                assert forall|i: int| 0 <= i < Self::size() implies #[trigger] hash.cell(i).len() == 0 by {
                    assert(cell_entries(hash.cells@[i]).len() == 0);
                }
                assert forall|l: int| 0 <= l < S implies #[trigger] hash.static_board(l)@ == Set::<(int, int)>::empty() by {
                    assert(hash.static_layers@[l].wf());
                }
                assert(hash.entities().dom() =~= Set::<u64>::empty());
                assert(hash.entities() =~= Map::<u64, EntryData>::empty());
                assert forall|i: int, key: u64| 0 <= i < Self::size() implies #[trigger] key_count(hash.cell(i), key) == 0 by {
                    assert(hash.cell(i).len() == 0);
                }
                assert forall|k: int, i: int| 0 <= k < E && 0 <= i < Self::size() implies #[trigger] hash.kind_flag(k, i) == has_kind(hash.cell(i), k) by {
                    assert(hash.cell(i).len() == 0);
                }
            }
        }
        hash
    }
}

} // verus!
