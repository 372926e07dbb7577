//! Conversions between fixed-width integers and their byte representation,
//! and a helper that maps an entropy seed into a bounded range.
//!
//! The whole crate uses a single fixed byte order, little-endian, for every
//! multi-byte quantity; these functions are that convention's only home.

use vstd::prelude::*;

verus! {

use vstd::bytes::{
    spec_u32_from_le_bytes, spec_u32_to_le_bytes, spec_u64_from_le_bytes, spec_u64_to_le_bytes,
    u32_from_le_bytes, u32_to_le_bytes, u64_from_le_bytes, u64_to_le_bytes,
};

/// Convert a `u32` into its little-endian byte representation.
pub fn u32_to_bytes(x: u32) -> (r: Vec<u8>)
    ensures
        r@ == spec_u32_to_le_bytes(x),
        r@.len() == 4,
{
    proof {
        vstd::bytes::lemma_auto_spec_u32_to_from_le_bytes();
    }
    u32_to_le_bytes(x)
}

/// Convert a `u64` into its little-endian byte representation.
pub fn u64_to_bytes(x: u64) -> (r: Vec<u8>)
    ensures
        r@ == spec_u64_to_le_bytes(x),
        r@.len() == 8,
{
    proof {
        vstd::bytes::lemma_auto_spec_u64_to_from_le_bytes();
    }
    u64_to_le_bytes(x)
}

/// Load a `u32` from its little-endian byte representation.
pub fn bytes_to_u32(x: [u8; 4]) -> (r: u32)
    ensures
        r == spec_u32_from_le_bytes(x@),
{
    u32_from_le_bytes(x.as_slice())
}

/// Load a `u64` from its little-endian byte representation.
pub fn bytes_to_u64(x: [u8; 8]) -> (r: u64)
    ensures
        r == spec_u64_from_le_bytes(x@),
{
    u64_from_le_bytes(x.as_slice())
}

/// Map an entropy seed into a bounded range: the seed's first eight bytes,
/// read as a little-endian `u64`, reduced modulo `max` and offset by `min`.
/// The seed itself comes from whatever source of entropy the caller has;
/// this function is deterministic in it.
pub fn random_in_range(seed: &[u8], min: u64, max: u64) -> (r: u64)
    requires
        seed@.len() >= 8,
        max >= 1,
        min + max - 1 <= u64::MAX,
    ensures
        r == min + spec_u64_from_le_bytes(seed@.take(8)) % max,
        min <= r < min + max,
{
    let s = vstd::slice::slice_subrange(seed, 0, 8);
    let x = u64_from_le_bytes(s);
    proof {
        assert(s@ =~= seed@.take(8));
    }
    min + (x % max)
}

} // verus!
