//! Stable hashing of node and key identities.
//!
//! The ring only needs one capability from the values it stores and routes:
//! a deterministic 64-bit hash of their identity. That capability is the
//! [`StableHash`] trait; implementations are given for `String` and `&str`,
//! both hashing with `std`'s `DefaultHasher` the way `str`'s `Hash`
//! implementation feeds it (the UTF-8 bytes followed by a `0xff` terminator).

use std::collections::hash_map::DefaultHasher;
use std::hash::Hasher;
use vstd::prelude::*;
use vstd::std_specs::hash::DefaultHasherAdditionalSpecFns;
use vstd::utf8::encode_utf8;

verus! {

/// The write calls that hashing a string performs on a hasher: one write of
/// its UTF-8 bytes, then one write of the single byte `0xff`.
pub open spec fn str_hash_writes(s: Seq<char>) -> Seq<Seq<u8>> {
    seq![encode_utf8(s), seq![255u8]]
}

/// The stable 64-bit hash of a string: what `DefaultHasher` finishes to
/// after the writes of `str_hash_writes`.
pub open spec fn str_stable_hash(s: Seq<char>) -> u64 {
    DefaultHasher::spec_finish(str_hash_writes(s))
}

/// A value with a deterministic 64-bit hash of its identity, and a way to
/// produce an equal copy of itself. Node types must provide both; lookup key
/// types only need the hash.
pub trait StableHash: Sized {
    /// The mathematical hash value of this item.
    spec fn hash_spec(&self) -> u64;

    /// Computes the stable hash of this item.
    fn stable_hash(&self) -> (h: u64)
        ensures
            h == self.hash_spec(),
    ;

    /// Returns an equal copy of this item.
    fn duplicate(&self) -> (d: Self)
        ensures
            d == *self,
    ;
}

/// Runs `DefaultHasher` over the bytes of `s` followed by the `0xff`
/// terminator, exactly as `str`'s `Hash` implementation writes a string.
fn hash_str(s: &str) -> (h: u64)
    ensures
        h == str_stable_hash(s@),
{
    let mut hasher = DefaultHasher::new();
    hasher.write(s.as_bytes());
    let mut terminator: Vec<u8> = Vec::new();
    terminator.push(255);
    hasher.write(terminator.as_slice());
    proof {
        assert(terminator@ =~= seq![255u8]);
        assert(hasher@ =~= str_hash_writes(s@));
    }
    hasher.finish()
}

impl StableHash for String {
    open spec fn hash_spec(&self) -> u64 {
        str_stable_hash(self@)
    }

    fn stable_hash(&self) -> (h: u64) {
        hash_str(self.as_str())
    }

    fn duplicate(&self) -> (d: Self) {
        self.clone()
    }
}

impl StableHash for &str {
    open spec fn hash_spec(&self) -> u64 {
        str_stable_hash(self@)
    }

    fn stable_hash(&self) -> (h: u64) {
        hash_str(self)
    }

    fn duplicate(&self) -> (d: Self) {
        *self
    }
}

} // verus!
