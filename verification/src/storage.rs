//! The containers that hold the spatial hash's records: a `smallvec::SmallVec` per
//! tile and a `hashbrown::HashMap` hashed with `ahash`.
use vstd::prelude::*;

verus! {

/// What the spatial hash keeps of an entity: center x, center y, radius, kind index.
pub type EntryData = (i32, i32, i32, usize);

/// The entries registered at one tile: an entity key and its kind index.
#[verifier::external_body]
pub struct Cell {
    entries: smallvec::SmallVec<[(u64, u8); 4]>,
}

/// The entries of a cell, in storage order.
pub uninterp spec fn cell_entries(c: Cell) -> Seq<(u64, u8)>;

/// `SmallVec::new`: a cell with no entries.
#[verifier::external_body]
pub(crate) fn cell_new() -> (c: Cell)
    ensures
        cell_entries(c) == Seq::<(u64, u8)>::empty(),
{
    Cell { entries: smallvec::SmallVec::new() }
}

/// `SmallVec::len`: the number of entries.
#[verifier::external_body]
pub(crate) fn cell_len(c: &Cell) -> (n: usize)
    ensures
        n == cell_entries(*c).len(),
{
    c.entries.len()
}

/// `SmallVec` indexing: the entry at position `i`.
#[verifier::external_body]
pub(crate) fn cell_at(c: &Cell, i: usize) -> (e: (u64, u8))
    requires
        i < cell_entries(*c).len(),
    ensures
        e == cell_entries(*c)[i as int],
{
    c.entries[i]
}

/// `SmallVec::push`: appends an entry.
#[verifier::external_body]
pub(crate) fn cell_push(c: &mut Cell, e: (u64, u8))
    ensures
        cell_entries(*final(c)) == cell_entries(*old(c)).push(e),
{
    c.entries.push(e);
}

/// `SmallVec::swap_remove`: removes the entry at position `i`, moving the last entry
/// into its place, and returns it.
#[verifier::external_body]
pub(crate) fn cell_swap_remove(c: &mut Cell, i: usize) -> (e: (u64, u8))
    requires
        i < cell_entries(*old(c)).len(),
    ensures
        e == cell_entries(*old(c))[i as int],
        cell_entries(*final(c)) == cell_entries(*old(c)).update(
            i as int,
            cell_entries(*old(c)).last(),
        ).drop_last(),
{
    c.entries.swap_remove(i)
}

#[verifier::external_type_specification]
#[verifier::external_body]
pub struct ExRandomState(ahash::RandomState);

/// `ahash::RandomState::default`: a hasher state with keys that vary from run to run;
/// nothing is stated of it.
#[verifier::external_body]
pub(crate) fn random_state() -> (state: ahash::RandomState) {
    ahash::RandomState::default()
}

/// The per-entity records, keyed by entity key.
#[verifier::external_body]
pub struct EntityTable {
    map: hashbrown::HashMap<u64, EntryData, ahash::RandomState>,
}

/// The key-to-record map that a table holds.
pub uninterp spec fn table_contents(t: EntityTable) -> Map<u64, EntryData>;

/// `hashbrown::HashMap::with_hasher`: an empty table that hashes with `hasher`.
#[verifier::external_body]
pub(crate) fn table_with_hasher(hasher: ahash::RandomState) -> (table: EntityTable)
    ensures
        table_contents(table).dom() == Set::<u64>::empty(),
{
    EntityTable { map: hashbrown::HashMap::with_hasher(hasher) }
}

/// `hashbrown::HashMap::get`: the record under `key`, if any.
#[verifier::external_body]
pub(crate) fn table_get(t: &EntityTable, key: u64) -> (r: Option<EntryData>)
    ensures
        r == (if table_contents(*t).contains_key(key) {
            Some(table_contents(*t)[key])
        } else {
            None
        }),
{
    t.map.get(&key).copied()
}

/// `hashbrown::HashMap::insert`: files `v` under `key`, replacing any earlier record.
#[verifier::external_body]
pub(crate) fn table_insert(t: &mut EntityTable, key: u64, v: EntryData)
    ensures
        table_contents(*final(t)) == table_contents(*old(t)).insert(key, v),
{
    t.map.insert(key, v);
}

/// `hashbrown::HashMap::remove`: takes out the record under `key`, if any.
#[verifier::external_body]
pub(crate) fn table_remove(t: &mut EntityTable, key: u64) -> (r: Option<EntryData>)
    ensures
        r == (if table_contents(*old(t)).contains_key(key) {
            Some(table_contents(*old(t))[key])
        } else {
            None
        }),
        table_contents(*final(t)) == table_contents(*old(t)).remove(key),
{
    t.map.remove(&key)
}

} // verus!
