//! The hashing strategy of the map: a seeded digest of a key's bytes.

use std::collections::hash_map::DefaultHasher;
use std::hash::Hasher;
use vstd::bytes::*;
use vstd::prelude::*;
use vstd::std_specs::hash::*;
use vstd::string::*;
use vstd::utf8::*;

verus! {

/// The digest under which the key `key` is filed by a map seeded with `seed`:
/// what the standard hasher returns after the seed's eight little-endian bytes
/// and then the key's UTF-8 bytes were written to it.
pub open spec fn key_hash(seed: u64, key: Seq<char>) -> u64 {
    DefaultHasher::spec_finish(seq![spec_u64_to_le_bytes(seed), encode_utf8(key)])
}

/// Hashes `k` under the seed `seed`.
pub fn hash_key(seed: u64, k: &str) -> (hash: u64)
    ensures
        hash == key_hash(seed, k@),
{
    let mut hasher = DefaultHasher::new();
    let seed_bytes = u64_to_le_bytes(seed);
    hasher.write(seed_bytes.as_slice());
    hasher.write(k.as_bytes());
    proof {
        assert(hasher@ =~= seq![spec_u64_to_le_bytes(seed), encode_utf8(k@)]);
    }
    hasher.finish()
}

/// Equality of two string slices, as `str`'s `==` decides it: the two hold the
/// same characters in the same order.
pub assume_specification[ <str as PartialEq>::eq ](a: &str, b: &str) -> (same: bool)
    ensures
        same == (a@ == b@),
;

/// Whether the stored key `stored` is the key `k`.
pub fn key_eq(stored: &String, k: &str) -> (same: bool)
    ensures
        same == (stored@ == k@),
{
    *stored.as_str() == *k
}

} // verus!
