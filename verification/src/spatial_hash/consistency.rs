//! The registration invariant: every registered entity is filed exactly once in each
//! cell of its square and nowhere else, and each kind board holds exactly the tiles
//! where an entity of that kind is filed. `insert` of a new identifier, `remove` and
//! the updates keep it, and a diff update ends where a full rebuild would.
use vstd::prelude::*;
use crate::entity_id::EntityId;
use crate::grid::tile_of;
use crate::storage::EntryData;
use super::query::{KindFilter, passes, passing_keys, lemma_passing_keys_empty};
use super::{
    SpatialHash, covers, find_key_from, has_kind, lemma_find_key_from, lemma_without_key,
    without_key,
};

verus! {

/// The number of entries of `s` filed under `key`.
pub open spec fn key_count(s: Seq<(u64, u8)>, key: u64) -> nat
    decreases s.len(),
{
    if s.len() == 0 {
        0
    } else {
        key_count(s.drop_last(), key) + if s.last().0 == key {
            1nat
        } else {
            0nat
        }
    }
}

/// The number of entries of `s` equal to `e`.
pub open spec fn entry_count(s: Seq<(u64, u8)>, e: (u64, u8)) -> nat
    decreases s.len(),
{
    if s.len() == 0 {
        0
    } else {
        entry_count(s.drop_last(), e) + if s.last() == e {
            1nat
        } else {
            0nat
        }
    }
}

pub proof fn lemma_key_count_push(s: Seq<(u64, u8)>, e: (u64, u8), key: u64)
    ensures
        key_count(s.push(e), key) == key_count(s, key) + if e.0 == key {
            1nat
        } else {
            0nat
        },
{
    assert(s.push(e).drop_last() =~= s);
}

/// No entry is filed under `key` exactly when the count is zero.
pub proof fn lemma_key_count_zero(s: Seq<(u64, u8)>, key: u64)
    ensures
        (key_count(s, key) == 0) == (forall|j: int| 0 <= j < s.len() ==> #[trigger] s[j].0 != key),
    decreases s.len(),
{
    if s.len() > 0 {
        lemma_key_count_zero(s.drop_last(), key);
        if key_count(s, key) == 0 {
            assert forall|j: int| 0 <= j < s.len() implies #[trigger] s[j].0 != key by {
                if j < s.len() - 1 {
                    assert(s.drop_last()[j] == s[j]);
                }
            }
        }
        if forall|j: int| 0 <= j < s.len() ==> #[trigger] s[j].0 != key {
            assert forall|j: int| 0 <= j < s.drop_last().len() implies #[trigger] s.drop_last()[j].0 != key by {
                assert(s.drop_last()[j] == s[j]);
            }
            assert(s[s.len() - 1].0 != key);
        }
    }
}

pub proof fn lemma_key_count_update(s: Seq<(u64, u8)>, p: int, v: (u64, u8), key: u64)
    requires
        0 <= p < s.len(),
    ensures
        key_count(s.update(p, v), key) + (if s[p].0 == key {
            1nat
        } else {
            0nat
        }) == key_count(s, key) + (if v.0 == key {
            1nat
        } else {
            0nat
        }),
    decreases s.len(),
{
    if p == s.len() - 1 {
        assert(s.update(p, v).drop_last() =~= s.drop_last());
    } else {
        assert(s.update(p, v).drop_last() =~= s.drop_last().update(p, v));
        lemma_key_count_update(s.drop_last(), p, v, key);
    }
}

/// Taking out `key` lowers its count by one when it had an entry, and leaves the
/// other keys' counts alone.
pub proof fn lemma_key_count_without(s: Seq<(u64, u8)>, key: u64, k2: u64)
    ensures
        key_count(without_key(s, key), k2) + (if k2 == key && find_key_from(s, key, 0) < s.len() {
            1nat
        } else {
            0nat
        }) == key_count(s, k2),
{
    lemma_find_key_from(s, key, 0);
    let p = find_key_from(s, key, 0);
    if p < s.len() {
        lemma_key_count_update(s, p, s.last(), k2);
        let u = s.update(p, s.last());
        assert(u.last() == s.last());
    }
}

/// Every entry but the one taken out survives.
pub proof fn lemma_without_key_keeps(s: Seq<(u64, u8)>, key: u64, q: int)
    requires
        0 <= q < s.len(),
        q != find_key_from(s, key, 0),
    ensures
        exists|j: int| 0 <= j < without_key(s, key).len() && #[trigger] without_key(s, key)[j] == s[q],
{
    lemma_find_key_from(s, key, 0);
    let p = find_key_from(s, key, 0);
    let t = without_key(s, key);
    if p < s.len() {
        if q == s.len() - 1 {
            assert(t[p] == s[q]);
        } else {
            assert(t[q] == s[q]);
        }
    } else {
        assert(t[q] == s[q]);
    }
}

/// Where every entry's kind is its key's record kind, the count of an entry is the
/// count of its key when the kind matches, and zero otherwise.
pub proof fn lemma_entry_count_by_key(s: Seq<(u64, u8)>, ents: Map<u64, EntryData>, e: (u64, u8))
    requires
        forall|j: int|
            0 <= j < s.len() ==> ents.contains_key(#[trigger] s[j].0) && s[j].1 == ents[s[j].0].3 as u8,
    ensures
        entry_count(s, e) == (if ents.contains_key(e.0) && e.1 == ents[e.0].3 as u8 {
            key_count(s, e.0)
        } else {
            0
        }),
    decreases s.len(),
{
    if s.len() > 0 {
        assert forall|j: int| 0 <= j < s.drop_last().len() implies ents.contains_key(#[trigger] s.drop_last()[j].0)
            && s.drop_last()[j].1 == ents[s.drop_last()[j].0].3 as u8 by {
            assert(s.drop_last()[j] == s[j]);
        }
        lemma_entry_count_by_key(s.drop_last(), ents, e);
        assert(ents.contains_key(s[s.len() - 1].0));
    }
}

/// A key is among the passing keys of `s` exactly when some entry of `s` filed under
/// it passes.
pub proof fn lemma_passing_keys_contains(
    s: Seq<(u64, u8)>,
    filter: KindFilter,
    exclude: Option<u64>,
    key: u64,
)
    ensures
        passing_keys(s, filter, exclude).contains(key) == (exists|j: int|
            0 <= j < s.len() && #[trigger] s[j].0 == key && passes(s[j], filter, exclude)),
    decreases s.len(),
{
    if s.len() > 0 {
        let d = s.drop_last();
        lemma_passing_keys_contains(d, filter, exclude, key);
        let p = passing_keys(d, filter, exclude);
        if passing_keys(s, filter, exclude).contains(key) {
            if p.contains(key) {
                let j = choose|j: int| 0 <= j < d.len() && #[trigger] d[j].0 == key && passes(d[j], filter, exclude);
                assert(s[j] == d[j]);
            } else {
                let q = choose|q: int| 0 <= q < p.push(s.last().0).len() && p.push(s.last().0)[q] == key;
                assert(s[s.len() - 1].0 == key);
            }
        }
        if exists|j: int| 0 <= j < s.len() && #[trigger] s[j].0 == key && passes(s[j], filter, exclude) {
            let j = choose|j: int| 0 <= j < s.len() && #[trigger] s[j].0 == key && passes(s[j], filter, exclude);
            if j < s.len() - 1 {
                assert(d[j] == s[j]);
                let q = choose|q: int| 0 <= q < p.len() && p[q] == key;
                if passes(s.last(), filter, exclude) {
                    assert(p.push(s.last().0)[q] == key);
                }
            } else {
                assert(p.push(s.last().0)[p.len() as int] == key);
            }
        }
    }
}

/// A zero kind mask lets no entry through.
pub proof fn lemma_zero_mask_passes_nothing(e: (u64, u8), exclude: Option<u64>)
    ensures
        !passes(e, KindFilter::Mask(0u64), exclude),
{
    let k = e.1 as u64;
    assert((0u64 >> k) & 1 == 0) by (bit_vector);
}

/// The number of entries of `s` filed under `key` that pass the filters.
pub open spec fn passing_count(s: Seq<(u64, u8)>, filter: KindFilter, exclude: Option<u64>, key: u64) -> nat
    decreases s.len(),
{
    if s.len() == 0 {
        0
    } else {
        passing_count(s.drop_last(), filter, exclude, key) + if s.last().0 == key && passes(
            s.last(),
            filter,
            exclude,
        ) {
            1nat
        } else {
            0nat
        }
    }
}

/// A key occurs among the passing keys as often as its passing entries.
pub proof fn lemma_passing_count(s: Seq<(u64, u8)>, filter: KindFilter, exclude: Option<u64>, key: u64)
    ensures
        passing_keys(s, filter, exclude).to_multiset().count(key) == passing_count(s, filter, exclude, key),
    decreases s.len(),
{
    broadcast use vstd::seq_lib::group_to_multiset_ensures;

    if s.len() > 0 {
        lemma_passing_count(s.drop_last(), filter, exclude, key);
    } else {
        assert(passing_keys(s, filter, exclude).to_multiset() =~= vstd::multiset::Multiset::<u64>::empty());
    }
}

/// When every entry filed under `key` is `(key, kind)`, the passing entries under
/// `key` are all of them or none, as `(key, kind)` passes or not.
pub proof fn lemma_passing_count_uniform(
    s: Seq<(u64, u8)>,
    filter: KindFilter,
    exclude: Option<u64>,
    key: u64,
    kind: u8,
)
    requires
        forall|j: int| 0 <= j < s.len() && #[trigger] s[j].0 == key ==> s[j].1 == kind,
    ensures
        passing_count(s, filter, exclude, key) == if passes((key, kind), filter, exclude) {
            key_count(s, key)
        } else {
            0
        },
    decreases s.len(),
{
    if s.len() > 0 {
        assert forall|j: int| 0 <= j < s.drop_last().len() && #[trigger] s.drop_last()[j].0 == key implies s.drop_last()[j].1
            == kind by {
            assert(s.drop_last()[j] == s[j]);
        }
        lemma_passing_count_uniform(s.drop_last(), filter, exclude, key, kind);
        if s.last().0 == key {
            assert(s[s.len() - 1].0 == key);
            assert(s.last() == (key, kind));
        }
    }
}

/// Over the tiles with index below `n` of a board `w` tiles wide: how many flagged
/// in `search` the square of `key`'s record in `ents` covers, when that record
/// passes the filters.
pub open spec fn covering_hits(
    ents: Map<u64, EntryData>,
    search: Seq<bool>,
    filter: KindFilter,
    exclude: Option<u64>,
    key: u64,
    w: int,
    n: nat,
) -> nat
    decreases n,
{
    if n == 0 {
        0
    } else {
        covering_hits(ents, search, filter, exclude, key, w, (n - 1) as nat) + if search[n - 1]
            && ents.contains_key(key) && covers(ents[key], tile_of(w, n - 1).0, tile_of(w, n - 1).1)
            && passes((key, ents[key].3 as u8), filter, exclude) {
            1nat
        } else {
            0nat
        }
    }
}

impl<ID: EntityId, const W: usize, const H: usize, const E: usize, const S: usize> SpatialHash<
    ID,
    W,
    H,
    E,
    S,
> {
    /// The cells and kind boards agree with the records `ents`: each entity is filed
    /// exactly once at every tile of its square and nowhere else, with its record's
    /// kind; no other key is filed; and each kind board holds exactly the tiles where
    /// an entry of that kind is filed.
    pub open spec fn consistent_with(&self, ents: Map<u64, EntryData>) -> bool {
        &&& forall|i: int, key: u64|
            0 <= i < Self::size() ==> #[trigger] key_count(self.cell(i), key) == (if ents.contains_key(key)
                && covers(ents[key], tile_of(W as int, i).0, tile_of(W as int, i).1) {
                1nat
            } else {
                0nat
            })
        &&& forall|i: int, j: int|
            0 <= i < Self::size() && 0 <= j < self.cell(i).len() ==> ents.contains_key(
                #[trigger] self.cell(i)[j].0,
            ) && self.cell(i)[j].1 == ents[self.cell(i)[j].0].3 as u8
        &&& forall|k: int, i: int|
            0 <= k < E && 0 <= i < Self::size() ==> #[trigger] self.kind_flag(k, i) == has_kind(
                self.cell(i),
                k,
            )
    }

    /// The cells and kind boards agree with the spatial hash's own records.
    pub open spec fn consistent(&self) -> bool {
        self.consistent_with(self.entities())
    }

    /// Registering a new key over its square keeps the cells in agreement with the
    /// records extended by it.
    pub proof fn lemma_push_consistent(
        pre: &Self,
        post: &Self,
        ents: Map<u64, EntryData>,
        key: u64,
        e: EntryData,
    )
        requires
            Self::params_ok(),
            pre.consistent_with(ents),
            !ents.contains_key(key),
            e.3 < E,
            e.3 < 256,
            pre.pushed_over(post, |a: int, b: int| covers(e, a, b), (key, e.3 as u8), e.3 as int),
        ensures
            post.consistent_with(ents.insert(key, e)),
    {
        let ents2 = ents.insert(key, e);
        assert forall|i: int, k2: u64| 0 <= i < Self::size() implies #[trigger] key_count(post.cell(i), k2) == (if ents2.contains_key(k2)
            && covers(ents2[k2], tile_of(W as int, i).0, tile_of(W as int, i).1) {
            1nat
        } else {
            0nat
        }) by {
            assert(key_count(pre.cell(i), key) == 0);
            lemma_key_count_push(pre.cell(i), (key, e.3 as u8), k2);
        }
        assert forall|i: int, j: int|
            0 <= i < Self::size() && 0 <= j < post.cell(i).len() implies ents2.contains_key(
                #[trigger] post.cell(i)[j].0,
            ) && post.cell(i)[j].1 == ents2[post.cell(i)[j].0].3 as u8 by {
            if j < pre.cell(i).len() {
                assert(post.cell(i)[j] == pre.cell(i)[j]);
                assert(ents.contains_key(pre.cell(i)[j].0));
            }
        }
        assert forall|k: int, i: int|
            0 <= k < E && 0 <= i < Self::size() implies #[trigger] post.kind_flag(k, i) == has_kind(
                post.cell(i),
                k,
            ) by {
            assert(pre.kind_flag(k, i) == has_kind(pre.cell(i), k));
            if covers(e, tile_of(W as int, i).0, tile_of(W as int, i).1) {
                let s = pre.cell(i);
                let t = s.push((key, e.3 as u8));
                assert(post.cell(i) == t);
                if has_kind(s, k) {
                    let j = choose|j: int| 0 <= j < s.len() && #[trigger] s[j].1 == k as u8;
                    assert(t[j] == s[j]);
                }
                if has_kind(t, k) && !has_kind(s, k) {
                    let j = choose|j: int| 0 <= j < t.len() && #[trigger] t[j].1 == k as u8;
                    if j < s.len() {
                        assert(t[j] == s[j]);
                    }
                }
                if k == e.3 {
                    assert(t[s.len() as int].1 == k as u8);
                }
            }
        }
    }

    /// Taking a registered key out over its square keeps the cells in agreement with
    /// the records without it, and leaves the key filed nowhere.
    pub proof fn lemma_remove_consistent(pre: &Self, post: &Self, ents: Map<u64, EntryData>, key: u64)
        requires
            Self::params_ok(),
            pre.consistent_with(ents),
            ents.contains_key(key),
            ents[key].3 < E,
            ents[key].3 < 256,
            pre.removed_over(post, |a: int, b: int| covers(ents[key], a, b), key, ents[key].3 as int),
        ensures
            post.consistent_with(ents.remove(key)),
            forall|i: int| 0 <= i < Self::size() ==> #[trigger] key_count(post.cell(i), key) == 0,
    {
        let o = ents[key];
        let ents2 = ents.remove(key);
        assert forall|i: int| 0 <= i < Self::size() implies {
            &&& #[trigger] key_count(post.cell(i), key) == 0
            &&& forall|k2: u64| key_count(post.cell(i), k2) == (if ents2.contains_key(k2)
                && covers(ents2[k2], tile_of(W as int, i).0, tile_of(W as int, i).1) {
                1nat
            } else {
                0nat
            })
            &&& forall|j: int| 0 <= j < post.cell(i).len() ==> ents2.contains_key(
                #[trigger] post.cell(i)[j].0,
            ) && post.cell(i)[j].1 == ents2[post.cell(i)[j].0].3 as u8
            &&& forall|k: int| 0 <= k < E ==> #[trigger] post.kind_flag(k, i) == has_kind(post.cell(i), k)
        } by {
            let s = pre.cell(i);
            let t = post.cell(i);
            lemma_find_key_from(s, key, 0);
            let p = find_key_from(s, key, 0);
            if covers(o, tile_of(W as int, i).0, tile_of(W as int, i).1) {
                assert(t == without_key(s, key));
                assert(key_count(s, key) == 1);
                lemma_key_count_zero(s, key);
                assert(p < s.len());
                assert forall|k2: u64| key_count(t, k2) == (if ents2.contains_key(k2)
                    && covers(ents2[k2], tile_of(W as int, i).0, tile_of(W as int, i).1) {
                    1nat
                } else {
                    0nat
                }) by {
                    lemma_key_count_without(s, key, k2);
                }
                assert(key_count(t, key) == 0) by {
                    lemma_key_count_without(s, key, key);
                }
                lemma_key_count_zero(t, key);
                lemma_without_key(s, key);
                assert forall|j: int| 0 <= j < t.len() implies ents2.contains_key(#[trigger] t[j].0)
                    && t[j].1 == ents2[t[j].0].3 as u8 by {
                    let q = choose|q: int| 0 <= q < s.len() && #[trigger] s[q] == t[j];
                    assert(ents.contains_key(s[q].0));
                }
                assert(s[p].1 == o.3 as u8);
                assert forall|k: int| 0 <= k < E implies #[trigger] post.kind_flag(k, i) == has_kind(t, k) by {
                    assert(pre.kind_flag(k, i) == has_kind(s, k));
                    if has_kind(t, k) {
                        let j = choose|j: int| 0 <= j < t.len() && #[trigger] t[j].1 == k as u8;
                        let q = choose|q: int| 0 <= q < s.len() && #[trigger] s[q] == t[j];
                        assert(s[q].1 == k as u8);
                    }
                    if k != o.3 && has_kind(s, k) {
                        let q = choose|q: int| 0 <= q < s.len() && #[trigger] s[q].1 == k as u8;
                        assert(q != p);
                        lemma_without_key_keeps(s, key, q);
                        let j = choose|j: int| 0 <= j < t.len() && #[trigger] t[j] == s[q];
                        assert(t[j].1 == k as u8);
                    }
                }
            } else {
                assert(t == s);
                assert(key_count(s, key) == 0);
                lemma_key_count_zero(s, key);
                assert forall|k2: u64| key_count(t, k2) == (if ents2.contains_key(k2)
                    && covers(ents2[k2], tile_of(W as int, i).0, tile_of(W as int, i).1) {
                    1nat
                } else {
                    0nat
                }) by {
                }
                assert forall|j: int| 0 <= j < t.len() implies ents2.contains_key(#[trigger] t[j].0)
                    && t[j].1 == ents2[t[j].0].3 as u8 by {
                    assert(ents.contains_key(s[j].0));
                }
                assert forall|k: int| 0 <= k < E implies #[trigger] post.kind_flag(k, i) == has_kind(t, k) by {
                    assert(pre.kind_flag(k, i) == has_kind(s, k));
                }
            }
        }
        assert forall|i: int, k2: u64| 0 <= i < Self::size() implies #[trigger] key_count(post.cell(i), k2) == (if ents2.contains_key(k2)
            && covers(ents2[k2], tile_of(W as int, i).0, tile_of(W as int, i).1) {
            1nat
        } else {
            0nat
        }) by {
            assert(key_count(post.cell(i), key) == 0);
        }
        assert forall|i: int, j: int|
            0 <= i < Self::size() && 0 <= j < post.cell(i).len() implies ents2.contains_key(
                #[trigger] post.cell(i)[j].0,
            ) && post.cell(i)[j].1 == ents2[post.cell(i)[j].0].3 as u8 by {
            assert(key_count(post.cell(i), key) == 0);
        }
        assert forall|k: int, i: int|
            0 <= k < E && 0 <= i < Self::size() implies #[trigger] post.kind_flag(k, i) == has_kind(
                post.cell(i),
                k,
            ) by {
            assert(key_count(post.cell(i), key) == 0);
        }
    }

    /// Moving a registered key's square (same radius and kind) keeps the cells in
    /// agreement with the records that carry its new center.
    pub proof fn lemma_move_consistent(
        pre: &Self,
        mid: &Self,
        post: &Self,
        ents: Map<u64, EntryData>,
        key: u64,
        e: EntryData,
    )
        requires
            Self::params_ok(),
            pre.consistent_with(ents),
            ents.contains_key(key),
            ents[key].2 == e.2,
            ents[key].3 == e.3,
            e.3 < E,
            e.3 < 256,
            pre.moved_via(mid, post, key, ents[key], e),
        ensures
            post.consistent_with(ents.insert(key, e)),
    {
        let o = ents[key];
        let ents2 = ents.insert(key, e);
        assert forall|i: int| #![trigger post.cell(i)] 0 <= i < Self::size() implies {
            &&& forall|k2: u64| #[trigger] key_count(post.cell(i), k2) == (if ents2.contains_key(k2)
                && covers(ents2[k2], tile_of(W as int, i).0, tile_of(W as int, i).1) {
                1nat
            } else {
                0nat
            })
            &&& forall|j: int| 0 <= j < post.cell(i).len() ==> ents2.contains_key(
                #[trigger] post.cell(i)[j].0,
            ) && post.cell(i)[j].1 == ents2[post.cell(i)[j].0].3 as u8
            &&& forall|k: int| 0 <= k < E ==> #[trigger] post.kind_flag(k, i) == has_kind(post.cell(i), k)
        } by {
            let s = pre.cell(i);
            let t = post.cell(i);
            let x = tile_of(W as int, i).0;
            let y = tile_of(W as int, i).1;
            lemma_find_key_from(s, key, 0);
            let p = find_key_from(s, key, 0);
            assert(pre.kind_flag(o.3 as int, i) == has_kind(s, o.3 as int));
            if covers(o, x, y) && !covers(e, x, y) {
                assert(mid.cell(i) == without_key(s, key));
                assert(t == mid.cell(i));
                assert(key_count(s, key) == 1);
                lemma_key_count_zero(s, key);
                assert(p < s.len());
                assert forall|k2: u64| #[trigger] key_count(t, k2) == (if ents2.contains_key(k2)
                    && covers(ents2[k2], x, y) {
                    1nat
                } else {
                    0nat
                }) by {
                    lemma_key_count_without(s, key, k2);
                }
                lemma_without_key(s, key);
                assert forall|j: int| 0 <= j < t.len() implies ents2.contains_key(#[trigger] t[j].0)
                    && t[j].1 == ents2[t[j].0].3 as u8 by {
                    let q = choose|q: int| 0 <= q < s.len() && #[trigger] s[q] == t[j];
                    assert(ents.contains_key(s[q].0));
                }
                assert(s[p].1 == o.3 as u8);
                assert forall|k: int| 0 <= k < E implies #[trigger] post.kind_flag(k, i) == has_kind(t, k) by {
                    assert(pre.kind_flag(k, i) == has_kind(s, k));
                    assert(mid.kind_flag(k, i) == post.kind_flag(k, i));
                    if has_kind(t, k) {
                        let j = choose|j: int| 0 <= j < t.len() && #[trigger] t[j].1 == k as u8;
                        let q = choose|q: int| 0 <= q < s.len() && #[trigger] s[q] == t[j];
                        assert(s[q].1 == k as u8);
                    }
                    if k != o.3 && has_kind(s, k) {
                        let q = choose|q: int| 0 <= q < s.len() && #[trigger] s[q].1 == k as u8;
                        assert(q != p);
                        lemma_without_key_keeps(s, key, q);
                        let j = choose|j: int| 0 <= j < t.len() && #[trigger] t[j] == s[q];
                        assert(t[j].1 == k as u8);
                    }
                }
            } else if covers(e, x, y) && !covers(o, x, y) {
                assert(mid.cell(i) == s);
                assert(t == s.push((key, e.3 as u8)));
                assert(key_count(s, key) == 0);
                assert forall|k2: u64| #[trigger] key_count(t, k2) == (if ents2.contains_key(k2)
                    && covers(ents2[k2], x, y) {
                    1nat
                } else {
                    0nat
                }) by {
                    lemma_key_count_push(s, (key, e.3 as u8), k2);
                }
                assert forall|j: int| 0 <= j < t.len() implies ents2.contains_key(#[trigger] t[j].0)
                    && t[j].1 == ents2[t[j].0].3 as u8 by {
                    if j < s.len() {
                        assert(t[j] == s[j]);
                        assert(ents.contains_key(s[j].0));
                    }
                }
                assert forall|k: int| 0 <= k < E implies #[trigger] post.kind_flag(k, i) == has_kind(t, k) by {
                    assert(pre.kind_flag(k, i) == has_kind(s, k));
                    assert(mid.kind_flag(k, i) == pre.kind_flag(k, i));
                    if has_kind(s, k) {
                        let j = choose|j: int| 0 <= j < s.len() && #[trigger] s[j].1 == k as u8;
                        assert(t[j] == s[j]);
                    }
                    if has_kind(t, k) && !has_kind(s, k) {
                        let j = choose|j: int| 0 <= j < t.len() && #[trigger] t[j].1 == k as u8;
                        if j < s.len() {
                            assert(t[j] == s[j]);
                        }
                    }
                    if k == e.3 {
                        assert(t[s.len() as int].1 == k as u8);
                    }
                }
            } else {
                assert(mid.cell(i) == s);
                assert(t == s);
                assert forall|k2: u64| #[trigger] key_count(t, k2) == (if ents2.contains_key(k2)
                    && covers(ents2[k2], x, y) {
                    1nat
                } else {
                    0nat
                }) by {
                }
                assert forall|j: int| 0 <= j < t.len() implies ents2.contains_key(#[trigger] t[j].0)
                    && t[j].1 == ents2[t[j].0].3 as u8 by {
                    assert(ents.contains_key(s[j].0));
                }
                assert forall|k: int| 0 <= k < E implies #[trigger] post.kind_flag(k, i) == has_kind(t, k) by {
                    assert(pre.kind_flag(k, i) == has_kind(s, k));
                    assert(mid.kind_flag(k, i) == pre.kind_flag(k, i));
                }
            }
        }
    }

    /// Equal cells, kind boards and records keep agreement: so does a throttled update
    /// that was skipped, or a removal of a key that was not registered.
    pub proof fn lemma_same_contents_consistent(pre: &Self, post: &Self)
        requires
            pre.consistent(),
            pre.same_contents(post),
        ensures
            post.consistent(),
    {
        assert forall|i: int, key: u64| 0 <= i < Self::size() implies #[trigger] key_count(post.cell(i), key) == (if post.entities().contains_key(key)
            && covers(post.entities()[key], tile_of(W as int, i).0, tile_of(W as int, i).1) {
            1nat
        } else {
            0nat
        }) by {
            assert(post.cell(i) == pre.cell(i));
        }
        assert forall|i: int, j: int|
            0 <= i < Self::size() && 0 <= j < post.cell(i).len() implies post.entities().contains_key(
                #[trigger] post.cell(i)[j].0,
            ) && post.cell(i)[j].1 == post.entities()[post.cell(i)[j].0].3 as u8 by {
            assert(post.cell(i) == pre.cell(i));
        }
        assert forall|k: int, i: int|
            0 <= k < E && 0 <= i < Self::size() implies #[trigger] post.kind_flag(k, i) == has_kind(
                post.cell(i),
                k,
            ) by {
            assert(post.cell(i) == pre.cell(i));
            assert(pre.kind_flag(k, i) == has_kind(pre.cell(i), k));
        }
    }

    /// Bringing a registration to record `e` (see [`updated`](Self::updated)) keeps
    /// the cells in agreement with the records.
    pub proof fn lemma_update_keeps_consistent(pre: &Self, post: &Self, key: u64, e: EntryData)
        requires
            pre.wf(),
            pre.consistent(),
            e.3 < E,
            e.3 < 256,
            pre.updated(post, key, e),
        ensures
            post.consistent(),
    {
        let ents = pre.entities();
        if !ents.contains_key(key) {
            Self::lemma_push_consistent(pre, post, ents, key, e);
        } else {
            let o = ents[key];
            assert(Self::entry_ok(o));
            if o == e {
                Self::lemma_same_contents_consistent(pre, post);
            } else if o.2 != e.2 || o.3 != e.3 {
                let mid = choose|mid: Self| #[trigger] pre.rebuilt_via(&mid, post, key, o, e);
                Self::lemma_remove_consistent(pre, &mid, ents, key);
                Self::lemma_push_consistent(&mid, post, ents.remove(key), key, e);
                assert(ents.remove(key).insert(key, e) =~= ents.insert(key, e));
            } else {
                let mid = choose|mid: Self| #[trigger] pre.moved_via(&mid, post, key, o, e);
                Self::lemma_move_consistent(pre, &mid, post, ents, key, e);
            }
        }
    }

    /// Inserting an identifier that is not registered keeps the cells in agreement
    /// with the records. (Inserting a registered one leaves its old entries behind.)
    pub proof fn lemma_insert_keeps_consistent(
        pre: &Self,
        post: &Self,
        key: u64,
        e: EntryData,
    )
        requires
            pre.wf(),
            pre.consistent(),
            !pre.entities().contains_key(key),
            e.3 < E,
            e.3 < 256,
            pre.pushed_over(post, |a: int, b: int| covers(e, a, b), (key, e.3 as u8), e.3 as int),
            post.entities() == pre.entities().insert(key, e),
        ensures
            post.consistent(),
    {
        Self::lemma_push_consistent(pre, post, pre.entities(), key, e);
    }

    /// Removing an identifier keeps the cells in agreement with the records, and
    /// afterwards its key is filed in no cell.
    pub proof fn lemma_remove_keeps_consistent(pre: &Self, post: &Self, key: u64)
        requires
            pre.wf(),
            pre.consistent(),
            pre.entities().contains_key(key) ==> {
                let o = pre.entities()[key];
                &&& pre.removed_over(post, |a: int, b: int| covers(o, a, b), key, o.3 as int)
                &&& post.entities() == pre.entities().remove(key)
            },
            !pre.entities().contains_key(key) ==> pre.same_contents(post),
        ensures
            post.consistent(),
            forall|i: int| 0 <= i < Self::size() ==> #[trigger] key_count(post.cell(i), key) == 0,
    {
        if pre.entities().contains_key(key) {
            assert(Self::entry_ok(pre.entities()[key]));
            Self::lemma_remove_consistent(pre, post, pre.entities(), key);
        } else {
            Self::lemma_same_contents_consistent(pre, post);
            assert forall|i: int| 0 <= i < Self::size() implies #[trigger] key_count(post.cell(i), key) == 0 by {
            }
        }
    }

    /// Two spatial hashes whose cells agree with the same records hold, at every tile,
    /// the same entries the same number of times (in whatever order) and the same kind
    /// flags.
    pub proof fn lemma_consistent_cells_agree(a: &Self, b: &Self, i: int, entry: (u64, u8))
        requires
            a.consistent(),
            b.consistent(),
            a.entities() == b.entities(),
            0 <= i < Self::size(),
        ensures
            entry_count(a.cell(i), entry) == entry_count(b.cell(i), entry),
            forall|k: int| 0 <= k < E ==> #[trigger] a.kind_flag(k, i) == b.kind_flag(k, i),
    {
        let ents = a.entities();
        assert forall|j: int| 0 <= j < a.cell(i).len() implies ents.contains_key(#[trigger] a.cell(i)[j].0)
            && a.cell(i)[j].1 == ents[a.cell(i)[j].0].3 as u8 by {}
        assert forall|j: int| 0 <= j < b.cell(i).len() implies ents.contains_key(#[trigger] b.cell(i)[j].0)
            && b.cell(i)[j].1 == ents[b.cell(i)[j].0].3 as u8 by {}
        lemma_entry_count_by_key(a.cell(i), ents, entry);
        lemma_entry_count_by_key(b.cell(i), ents, entry);
        assert(key_count(a.cell(i), entry.0) == key_count(b.cell(i), entry.0));
        assert forall|k: int| 0 <= k < E implies #[trigger] a.kind_flag(k, i) == b.kind_flag(k, i) by {
            assert(a.kind_flag(k, i) == has_kind(a.cell(i), k));
            assert(b.kind_flag(k, i) == has_kind(b.cell(i), k));
            if has_kind(a.cell(i), k) {
                let j = choose|j: int| 0 <= j < a.cell(i).len() && #[trigger] a.cell(i)[j].1 == k as u8;
                let key = a.cell(i)[j].0;
                lemma_key_count_zero(a.cell(i), key);
                assert(key_count(a.cell(i), key) == key_count(b.cell(i), key));
                lemma_key_count_zero(b.cell(i), key);
                let j2 = choose|j2: int| 0 <= j2 < b.cell(i).len() && #[trigger] b.cell(i)[j2].0 == key;
                assert(b.cell(i)[j2].1 == k as u8);
            }
            if has_kind(b.cell(i), k) {
                let j = choose|j: int| 0 <= j < b.cell(i).len() && #[trigger] b.cell(i)[j].1 == k as u8;
                let key = b.cell(i)[j].0;
                lemma_key_count_zero(b.cell(i), key);
                assert(key_count(a.cell(i), key) == key_count(b.cell(i), key));
                lemma_key_count_zero(a.cell(i), key);
                let j2 = choose|j2: int| 0 <= j2 < a.cell(i).len() && #[trigger] a.cell(i)[j2].0 == key;
                assert(a.cell(i)[j2].1 == k as u8);
            }
        }
    }

    /// A diff update (`update_diff`) ends where a full rebuild would: `remove` followed
    /// by `insert` of the same record gives the same records, the same kind boards, and
    /// at every tile the same entries the same number of times (in whatever order).
    ///
    /// `removed` and `rebuilt` are related to `pre` as `remove` and `insert` promise.
    pub proof fn lemma_update_matches_rebuild(
        pre: &Self,
        diffed: &Self,
        removed: &Self,
        rebuilt: &Self,
        key: u64,
        e: EntryData,
    )
        requires
            pre.wf(),
            pre.consistent(),
            e.3 < E,
            e.3 < 256,
            pre.updated(diffed, key, e),
            pre.entities().contains_key(key) ==> {
                let o = pre.entities()[key];
                &&& pre.removed_over(removed, |a: int, b: int| covers(o, a, b), key, o.3 as int)
                &&& removed.entities() == pre.entities().remove(key)
            },
            !pre.entities().contains_key(key) ==> pre.same_contents(removed),
            removed.pushed_over(rebuilt, |a: int, b: int| covers(e, a, b), (key, e.3 as u8), e.3 as int),
            rebuilt.entities() == removed.entities().insert(key, e),
        ensures
            diffed.entities() == rebuilt.entities(),
            forall|i: int, entry: (u64, u8)|
                0 <= i < Self::size() ==> #[trigger] entry_count(diffed.cell(i), entry) == entry_count(
                    rebuilt.cell(i),
                    entry,
                ),
            forall|k: int, i: int|
                0 <= k < E && 0 <= i < Self::size() ==> #[trigger] diffed.kind_flag(k, i)
                    == rebuilt.kind_flag(k, i),
            forall|search: Seq<bool>, filter: KindFilter, exclude: Option<u64>|
                #[trigger] diffed.query_keys(search, filter, exclude, Self::size() as nat).to_multiset()
                    == rebuilt.query_keys(search, filter, exclude, Self::size() as nat).to_multiset(),
            diffed.frame_same(rebuilt),
    {
        Self::lemma_update_keeps_consistent(pre, diffed, key, e);
        let ents = pre.entities();
        if ents.contains_key(key) {
            assert(Self::entry_ok(ents[key]));
            Self::lemma_remove_consistent(pre, removed, ents, key);
            Self::lemma_push_consistent(removed, rebuilt, ents.remove(key), key, e);
        } else {
            Self::lemma_same_contents_consistent(pre, removed);
            Self::lemma_push_consistent(removed, rebuilt, ents, key, e);
        }
        assert(ents.remove(key).insert(key, e) =~= ents.insert(key, e));
        if ents.contains_key(key) && ents[key] == e {
            assert(diffed.entities() == ents);
            assert(ents.insert(key, e) =~= ents);
        }
        assert(diffed.entities() =~= rebuilt.entities());
        assert forall|i: int, entry: (u64, u8)|
            0 <= i < Self::size() implies #[trigger] entry_count(diffed.cell(i), entry) == entry_count(
                rebuilt.cell(i),
                entry,
            ) by {
            Self::lemma_consistent_cells_agree(diffed, rebuilt, i, entry);
        }
        assert forall|k: int, i: int|
            0 <= k < E && 0 <= i < Self::size() implies #[trigger] diffed.kind_flag(k, i)
                == rebuilt.kind_flag(k, i) by {
            Self::lemma_consistent_cells_agree(diffed, rebuilt, i, (0, 0));
        }
        assert forall|search: Seq<bool>, filter: KindFilter, exclude: Option<u64>|
            #[trigger] diffed.query_keys(search, filter, exclude, Self::size() as nat).to_multiset()
                == rebuilt.query_keys(search, filter, exclude, Self::size() as nat).to_multiset() by {
            Self::lemma_consistent_queries_agree(diffed, rebuilt, search, filter, exclude);
        }
        if ents.contains_key(key) {
            let o = ents[key];
            if o != e {
                if o.2 != e.2 || o.3 != e.3 {
                    let mid = choose|mid: Self| #[trigger] pre.rebuilt_via(&mid, diffed, key, o, e);
                } else {
                    let mid = choose|mid: Self| #[trigger] pre.moved_via(&mid, diffed, key, o, e);
                }
            }
        }
    }

    /// Under agreement of cells and records, a query reports each key as often as
    /// there are searched tiles that its square covers (when its record passes the
    /// filters): the multiset of reported keys depends on the records alone.
    pub proof fn lemma_query_counts(
        &self,
        search: Seq<bool>,
        filter: KindFilter,
        exclude: Option<u64>,
        key: u64,
        n: nat,
    )
        requires
            self.consistent(),
            n <= Self::size(),
        ensures
            self.query_keys(search, filter, exclude, n).to_multiset().count(key) == covering_hits(
                self.entities(),
                search,
                filter,
                exclude,
                key,
                W as int,
                n,
            ),
        decreases n,
    {
        broadcast use vstd::seq_lib::group_to_multiset_ensures;

        let ents = self.entities();
        if n == 0 {
            assert(self.query_keys(search, filter, exclude, n).to_multiset() =~= vstd::multiset::Multiset::<u64>::empty());
        } else {
            self.lemma_query_counts(search, filter, exclude, key, (n - 1) as nat);
            let i = n - 1;
            let p = self.query_keys(search, filter, exclude, (n - 1) as nat);
            if search[i] {
                let c = passing_keys(self.cell(i), filter, exclude);
                vstd::seq_lib::lemma_multiset_commutative(p, c);
                lemma_passing_count(self.cell(i), filter, exclude, key);
                let kind: u8 = if ents.contains_key(key) { ents[key].3 as u8 } else { 0u8 };
                assert forall|j: int| 0 <= j < self.cell(i).len() && #[trigger] self.cell(i)[j].0 == key implies self.cell(
                    i,
                )[j].1 == kind by {
                    assert(ents.contains_key(self.cell(i)[j].0));
                }
                lemma_passing_count_uniform(self.cell(i), filter, exclude, key, kind);
            }
        }
    }

    /// Two spatial hashes whose cells agree with the same records report, for every
    /// query, the same keys the same number of times (in whatever order).
    pub proof fn lemma_consistent_queries_agree(
        a: &Self,
        b: &Self,
        search: Seq<bool>,
        filter: KindFilter,
        exclude: Option<u64>,
    )
        requires
            a.consistent(),
            b.consistent(),
            a.entities() == b.entities(),
        ensures
            a.query_keys(search, filter, exclude, Self::size() as nat).to_multiset() == b.query_keys(
                search,
                filter,
                exclude,
                Self::size() as nat,
            ).to_multiset(),
    {
        assert forall|key: u64|
            #[trigger] a.query_keys(search, filter, exclude, Self::size() as nat).to_multiset().count(key) == b.query_keys(
                search,
                filter,
                exclude,
                Self::size() as nat,
            ).to_multiset().count(key) by {
            a.lemma_query_counts(search, filter, exclude, key, Self::size() as nat);
            b.lemma_query_counts(search, filter, exclude, key, Self::size() as nat);
        }
        assert(a.query_keys(search, filter, exclude, Self::size() as nat).to_multiset() =~= b.query_keys(
            search,
            filter,
            exclude,
            Self::size() as nat,
        ).to_multiset());
    }

    /// Removing an entity right after registering it under a key that had no
    /// registration gives back the cells, kind boards, records and static layers from
    /// before, when those agreed: each cell loses exactly the entry that was appended.
    pub proof fn lemma_remove_undoes_insert(pre: &Self, mid: &Self, post: &Self, key: u64, e: EntryData)
        requires
            pre.wf(),
            pre.consistent(),
            !pre.entities().contains_key(key),
            pre.pushed_over(mid, |a: int, b: int| covers(e, a, b), (key, e.3 as u8), e.3 as int),
            mid.entities() == pre.entities().insert(key, e),
            mid.removed_over(post, |a: int, b: int| covers(e, a, b), key, e.3 as int),
            post.entities() == mid.entities().remove(key),
        ensures
            pre.same_contents(post),
    {
        assert forall|i: int| 0 <= i < Self::size() implies #[trigger] post.cell(i) == pre.cell(i) by {
            let (x, y) = tile_of(W as int, i);
            if covers(e, x, y) {
                let s = pre.cell(i);
                let m = mid.cell(i);
                assert(m == s.push((key, e.3 as u8)));
                assert(key_count(s, key) == 0);
                lemma_key_count_zero(s, key);
                lemma_find_key_from(m, key, 0);
                let p = find_key_from(m, key, 0);
                assert(m[m.len() - 1].0 == key);
                if p < m.len() - 1 {
                    assert(m[p] == s[p]);
                    assert(s[p].0 != key);
                }
                if p == m.len() {
                    assert(m[m.len() - 1].0 != key);
                }
                assert(p == m.len() - 1);
                assert(m.update(p, m.last()) =~= m);
                assert(m.drop_last() =~= s);
            }
        }
        assert forall|k: int, i: int| 0 <= k < E && 0 <= i < Self::size() implies #[trigger] post.kind_flag(k, i)
            == pre.kind_flag(k, i) by {
            assert(post.cell(i) == pre.cell(i));
        }
        assert(post.entities() =~= pre.entities());
    }

    /// A key is among the keys that a query over the tiles below `n` reports exactly
    /// when one of those tiles in `search` holds a passing entry filed under it.
    pub proof fn lemma_query_keys_contains(
        &self,
        search: Seq<bool>,
        filter: KindFilter,
        exclude: Option<u64>,
        key: u64,
        n: nat,
    )
        ensures
            self.query_keys(search, filter, exclude, n).contains(key) == (exists|i: int|
                0 <= i < n && search[i] && #[trigger] passing_keys(self.cell(i), filter, exclude).contains(
                    key,
                )),
        decreases n,
    {
        if n > 0 {
            self.lemma_query_keys_contains(search, filter, exclude, key, (n - 1) as nat);
            let p = self.query_keys(search, filter, exclude, (n - 1) as nat);
            let c = passing_keys(self.cell(n - 1), filter, exclude);
            let here = search[n - 1] && c.contains(key);
            let before = exists|i: int|
                0 <= i < n - 1 && search[i] && #[trigger] passing_keys(self.cell(i), filter, exclude).contains(key);
            let now = exists|i: int|
                0 <= i < n && search[i] && #[trigger] passing_keys(self.cell(i), filter, exclude).contains(key);
            assert(now == (before || here)) by {
                if now {
                    let i = choose|i: int|
                        0 <= i < n && search[i] && #[trigger] passing_keys(self.cell(i), filter, exclude).contains(key);
                    if i < n - 1 {
                        assert(before);
                    }
                }
                if here {
                    assert(passing_keys(self.cell(n - 1), filter, exclude).contains(key));
                }
            }
            if search[n - 1] {
                assert(self.query_keys(search, filter, exclude, n) == p + c);
                if (p + c).contains(key) {
                    let q = choose|q: int| 0 <= q < (p + c).len() && (p + c)[q] == key;
                    if q < p.len() {
                        assert(p[q] == key);
                    } else {
                        assert(c[q - p.len()] == key);
                    }
                }
                if p.contains(key) {
                    let q = choose|q: int| 0 <= q < p.len() && p[q] == key;
                    assert((p + c)[q] == key);
                }
                if c.contains(key) {
                    let q = choose|q: int| 0 <= q < c.len() && c[q] == key;
                    assert((p + c)[p.len() + q] == key);
                }
            } else {
                assert(self.query_keys(search, filter, exclude, n) == p);
            }
        }
    }

    /// What a query reports, under agreement of cells and records: a registered entity
    /// is reported exactly when it passes the filters and its square covers some tile
    /// of the search mask; nothing else is reported.
    pub proof fn lemma_query_reports(
        &self,
        search: Seq<bool>,
        filter: KindFilter,
        exclude: Option<u64>,
        key: u64,
    )
        requires
            self.wf(),
            self.consistent(),
            search.len() == Self::size(),
        ensures
            self.query_keys(search, filter, exclude, Self::size() as nat).contains(key) == (
            self.entities().contains_key(key) && passes(
                (key, self.entities()[key].3 as u8),
                filter,
                exclude,
            ) && exists|i: int|
                0 <= i < Self::size() && search[i] && #[trigger] covers(
                    self.entities()[key],
                    tile_of(W as int, i).0,
                    tile_of(W as int, i).1,
                )),
    {
        let ents = self.entities();
        self.lemma_query_keys_contains(search, filter, exclude, key, Self::size() as nat);
        if self.query_keys(search, filter, exclude, Self::size() as nat).contains(key) {
            let i = choose|i: int|
                0 <= i < Self::size() && search[i] && #[trigger] passing_keys(self.cell(i), filter, exclude).contains(key);
            lemma_passing_keys_contains(self.cell(i), filter, exclude, key);
            let j = choose|j: int|
                0 <= j < self.cell(i).len() && #[trigger] self.cell(i)[j].0 == key && passes(
                    self.cell(i)[j],
                    filter,
                    exclude,
                );
            assert(ents.contains_key(self.cell(i)[j].0));
            lemma_key_count_zero(self.cell(i), key);
            assert(covers(ents[key], tile_of(W as int, i).0, tile_of(W as int, i).1));
        }
        if ents.contains_key(key) && passes((key, ents[key].3 as u8), filter, exclude) && exists|i: int|
            0 <= i < Self::size() && search[i] && #[trigger] covers(
                ents[key],
                tile_of(W as int, i).0,
                tile_of(W as int, i).1,
            ) {
            let i = choose|i: int|
                0 <= i < Self::size() && search[i] && #[trigger] covers(
                    ents[key],
                    tile_of(W as int, i).0,
                    tile_of(W as int, i).1,
                );
            assert(key_count(self.cell(i), key) == 1);
            lemma_key_count_zero(self.cell(i), key);
            let j = choose|j: int| 0 <= j < self.cell(i).len() && #[trigger] self.cell(i)[j].0 == key;
            assert(self.cell(i)[j] == (key, ents[key].3 as u8));
            lemma_passing_keys_contains(self.cell(i), filter, exclude, key);
            assert(passing_keys(self.cell(i), filter, exclude).contains(key));
        }
    }

    /// What a query reports, spelled out for each filter. Under agreement of cells and
    /// records, a key is reported exactly when it is registered, its record's kind `k`
    /// is accepted, it is not the excluded key, and its square covers a searched tile.
    /// The kind is accepted: with no filter, always (whatever the key); with a mask
    /// `m`, when `k < 64` and bit `k` of `m` is set, so a mask with several bits
    /// accepts each of those kinds; with a single kind, when it is that kind.
    pub proof fn lemma_query_reports_by_filter(
        &self,
        search: Seq<bool>,
        filter: KindFilter,
        exclude: Option<u64>,
        key: u64,
    )
        requires
            self.wf(),
            self.consistent(),
            search.len() == Self::size(),
        ensures
            self.query_keys(search, filter, exclude, Self::size() as nat).contains(key) == {
                let ents = self.entities();
                &&& ents.contains_key(key)
                &&& match filter {
                    KindFilter::Any => true,
                    KindFilter::Mask(m) => ents[key].3 < 64 && (m >> (ents[key].3 as u64)) & 1 == 1,
                    KindFilter::Only(k) => ents[key].3 == k,
                }
                &&& match exclude {
                    Some(x) => key != x,
                    None => true,
                }
                &&& exists|i: int|
                    0 <= i < Self::size() && search[i] && #[trigger] covers(
                        ents[key],
                        tile_of(W as int, i).0,
                        tile_of(W as int, i).1,
                    )
            },
    {
        self.lemma_query_reports(search, filter, exclude, key);
        if self.entities().contains_key(key) {
            assert(Self::entry_ok(self.entities()[key]));
        }
    }

    /// With no kind filter and no exclusion, a query reports every registered entity
    /// whose square covers a searched tile, and nothing else.
    pub proof fn lemma_unfiltered_query_reports_all(&self, search: Seq<bool>, key: u64)
        requires
            self.wf(),
            self.consistent(),
            search.len() == Self::size(),
        ensures
            self.query_keys(search, KindFilter::Any, None, Self::size() as nat).contains(key) == (
            self.entities().contains_key(key) && exists|i: int|
                0 <= i < Self::size() && search[i] && #[trigger] covers(
                    self.entities()[key],
                    tile_of(W as int, i).0,
                    tile_of(W as int, i).1,
                )),
    {
        self.lemma_query_reports_by_filter(search, KindFilter::Any, None, key);
    }

    /// A mask accepts the union of what its parts accept: a query with mask `m1 | m2`
    /// reports a key exactly when the query with `m1` or the one with `m2` does.
    pub proof fn lemma_mask_union(
        &self,
        search: Seq<bool>,
        m1: u64,
        m2: u64,
        exclude: Option<u64>,
        key: u64,
    )
        requires
            self.wf(),
            self.consistent(),
            search.len() == Self::size(),
        ensures
            self.query_keys(search, KindFilter::Mask(m1 | m2), exclude, Self::size() as nat).contains(key)
                == (self.query_keys(search, KindFilter::Mask(m1), exclude, Self::size() as nat).contains(key)
                || self.query_keys(search, KindFilter::Mask(m2), exclude, Self::size() as nat).contains(key)),
    {
        self.lemma_query_reports_by_filter(search, KindFilter::Mask(m1 | m2), exclude, key);
        self.lemma_query_reports_by_filter(search, KindFilter::Mask(m1), exclude, key);
        self.lemma_query_reports_by_filter(search, KindFilter::Mask(m2), exclude, key);
        if self.entities().contains_key(key) {
            let k: u64 = self.entities()[key].3 as u64;
            assert(k < 64 ==> (((m1 | m2) >> k) & 1 == 1) == ((m1 >> k) & 1 == 1 || (m2 >> k) & 1 == 1))
                by (bit_vector);
        }
    }

    /// A query never reports the excluded key.
    pub proof fn lemma_query_excludes(&self, search: Seq<bool>, filter: KindFilter, x: u64, n: nat)
        ensures
            !self.query_keys(search, filter, Some(x), n).contains(x),
    {
        self.lemma_query_keys_contains(search, filter, Some(x), x, n);
        if self.query_keys(search, filter, Some(x), n).contains(x) {
            let i = choose|i: int|
                0 <= i < n && search[i] && #[trigger] passing_keys(self.cell(i), filter, Some(x)).contains(x);
            lemma_passing_keys_contains(self.cell(i), filter, Some(x), x);
        }
    }

    /// A kind mask of zero matches nothing: the query reports no key.
    pub proof fn lemma_zero_kind_mask_reports_nothing(
        &self,
        search: Seq<bool>,
        exclude: Option<u64>,
        n: nat,
    )
        ensures
            self.query_keys(search, KindFilter::Mask(0u64), exclude, n) == Seq::<u64>::empty(),
        decreases n,
    {
        if n > 0 {
            self.lemma_zero_kind_mask_reports_nothing(search, exclude, (n - 1) as nat);
            assert forall|j: int| 0 <= j < self.cell(n - 1).len() implies !passes(
                #[trigger] self.cell(n - 1)[j],
                KindFilter::Mask(0u64),
                exclude,
            ) by {
                lemma_zero_mask_passes_nothing(self.cell(n - 1)[j], exclude);
            }
            lemma_passing_keys_empty(self.cell(n - 1), KindFilter::Mask(0u64), exclude);
            assert(Seq::<u64>::empty() + Seq::<u64>::empty() =~= Seq::<u64>::empty());
        }
    }

    /// Under agreement of cells and records, a tile holds an entry exactly when the
    /// square of some registered entity covers it, and the board of kind `k` holds it
    /// exactly when the square of some registered entity of kind `k` covers it.
    pub proof fn lemma_tile_covered(&self, i: int, k: int)
        requires
            self.wf(),
            self.consistent(),
            0 <= i < Self::size(),
            0 <= k < E,
        ensures
            (self.cell(i).len() > 0) == (exists|key: u64|
                #[trigger] self.entities().contains_key(key) && covers(
                    self.entities()[key],
                    tile_of(W as int, i).0,
                    tile_of(W as int, i).1,
                )),
            self.kind_flag(k, i) == (exists|key: u64|
                #[trigger] self.entities().contains_key(key) && self.entities()[key].3 == k && covers(
                    self.entities()[key],
                    tile_of(W as int, i).0,
                    tile_of(W as int, i).1,
                )),
    {
        let ents = self.entities();
        let (x, y) = tile_of(W as int, i);
        if self.cell(i).len() > 0 {
            let key = self.cell(i)[0].0;
            assert(ents.contains_key(key));
            lemma_key_count_zero(self.cell(i), key);
        }
        if exists|key: u64| #[trigger] ents.contains_key(key) && covers(ents[key], x, y) {
            let key = choose|key: u64| #[trigger] ents.contains_key(key) && covers(ents[key], x, y);
            assert(key_count(self.cell(i), key) == 1);
            lemma_key_count_zero(self.cell(i), key);
        }
        assert(self.kind_flag(k, i) == has_kind(self.cell(i), k));
        if has_kind(self.cell(i), k) {
            let j = choose|j: int| 0 <= j < self.cell(i).len() && #[trigger] self.cell(i)[j].1 == k as u8;
            let key = self.cell(i)[j].0;
            assert(ents.contains_key(key));
            assert(Self::entry_ok(ents[key]));
            lemma_key_count_zero(self.cell(i), key);
            assert(ents[key].3 == k);
        }
        if exists|key: u64| #[trigger] ents.contains_key(key) && ents[key].3 == k && covers(ents[key], x, y) {
            let key = choose|key: u64| #[trigger] ents.contains_key(key) && ents[key].3 == k && covers(ents[key], x, y);
            assert(key_count(self.cell(i), key) == 1);
            lemma_key_count_zero(self.cell(i), key);
            let j = choose|j: int| 0 <= j < self.cell(i).len() && #[trigger] self.cell(i)[j].0 == key;
            assert(self.cell(i)[j].1 == k as u8);
        }
    }
}

} // verus!
