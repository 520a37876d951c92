//! Identifiers of the entities that the spatial hash tracks.
use vstd::prelude::*;

verus! {

/// An entity identifier that the spatial hash files under a `u64` key. Distinct
/// identifiers have distinct keys, and a key leads back to its identifier.
pub trait EntityId: Copy + Sized {
    /// The key of the identifier.
    spec fn key(self) -> u64;

    /// Whether `k` is the key of some identifier.
    spec fn is_key(k: u64) -> bool;

    /// Computes the key of the identifier.
    fn to_key(&self) -> (k: u64)
        ensures
            k == self.key(),
    ;

    /// The identifier whose key is `k`.
    fn from_key(k: u64) -> (id: Self)
        requires
            Self::is_key(k),
        ensures
            id.key() == k,
    ;

    /// Every identifier's key is a key, and keys tell identifiers apart.
    proof fn lemma_key(a: Self, b: Self)
        ensures
            Self::is_key(a.key()),
            a.key() == b.key() ==> a == b,
    ;
}

impl EntityId for u32 {
    open spec fn key(self) -> u64 {
        self as u64
    }

    open spec fn is_key(k: u64) -> bool {
        k <= u32::MAX
    }

    fn to_key(&self) -> (k: u64) {
        *self as u64
    }

    fn from_key(k: u64) -> (id: Self) {
        k as u32
    }

    proof fn lemma_key(a: Self, b: Self) {
    }
}

impl EntityId for u64 {
    open spec fn key(self) -> u64 {
        self
    }

    open spec fn is_key(k: u64) -> bool {
        true
    }

    fn to_key(&self) -> (k: u64) {
        *self
    }

    fn from_key(k: u64) -> (id: Self) {
        k
    }

    proof fn lemma_key(a: Self, b: Self) {
    }
}

} // verus!
