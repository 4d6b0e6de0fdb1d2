//! Sorted string tables: the builder and the metadata it keeps per block.
pub mod builder;

pub use builder::SsTableBuilder;

use vstd::prelude::*;

verus! {

/// Where a block starts in an SST and its key range.
#[derive(Debug, Clone, PartialEq, Eq)]
pub struct BlockMeta {
    /// Offset of this data block.
    pub offset: usize,
    /// The first key of the data block.
    pub first_key: Vec<u8>,
    /// The last key of the data block.
    pub last_key: Vec<u8>,
}

/// What `farmhash::fingerprint32` returns for a byte string: a hash that the crate
/// documents as portable and stable across versions and platforms.
pub uninterp spec fn fingerprint32_of(data: Seq<u8>) -> u32;

/// The little-endian `u32` at position `i` of `s`.
pub open spec fn le32(s: Seq<u8>, i: int) -> nat {
    (s[i] as nat) + (s[i + 1] as nat) * 0x100 + (s[i + 2] as nat) * 0x10000 + (s[i + 3] as nat) * 0x1000000
}

/// The byte strings `farmhash::fingerprint32` hashes without an overflowing `u32`
/// addition: for 5 to 12 bytes it adds the length (and 5 times and 9) to words of the
/// input with `+`, and for 13 to 24 bytes the length to a word of the input times a
/// constant; an overflow there panics where overflow checks are on.
pub open spec fn fingerprint32_defined(s: Seq<u8>) -> bool {
    let n = s.len();
    if 5 <= n <= 12 {
        &&& le32(s, 0) + n <= u32::MAX
        &&& le32(s, n - 4) + 5 * n <= u32::MAX
        &&& le32(s, if n >= 8 { 4 } else { 0 }) + 9 <= u32::MAX
    } else if 13 <= n <= 24 {
        (le32(s, (n / 2) as int) * 0xcc9e2d51) % 0x1_0000_0000 + n <= u32::MAX
    } else {
        true
    }
}

/// Calls `farmhash::fingerprint32`, on an input it hashes without overflow; its result
/// is `fingerprint32_of` of the bytes.
#[verifier::external_body]
pub(crate) fn fingerprint32(data: &[u8]) -> (r: u32)
    requires
        fingerprint32_defined(data@),
    ensures
        r == fingerprint32_of(data@),
{
    farmhash::fingerprint32(data)
}

fn le32_at(data: &[u8], i: usize) -> (r: u64)
    requires
        i + 4 <= data@.len(),
    ensures
        r == le32(data@, i as int),
        r < 0x1_0000_0000,
{
    (data[i] as u64) + (data[i + 1] as u64) * 0x100 + (data[i + 2] as u64) * 0x10000 + (data[i + 3] as u64)
        * 0x1000000
}

/// Whether a key can be hashed by `farmhash::fingerprint32` without overflow.
pub fn fingerprint32_safe(data: &[u8]) -> (r: bool)
    ensures
        r == fingerprint32_defined(data@),
{
    let n = data.len();
    if 5 <= n && n <= 12 {
        let third = if n >= 8 { 4 } else { 0 };
        le32_at(data, 0) + (n as u64) <= 0xffff_ffff && le32_at(data, n - 4) + 5 * (n as u64) <= 0xffff_ffff
            && le32_at(data, third) + 9 <= 0xffff_ffff
    } else if 13 <= n && n <= 24 {
        let w = le32_at(data, n / 2);
        assert(w * 0xcc9e2d51 < 0x1_0000_0000 * 0x1_0000_0000) by (nonlinear_arith)
            requires
                w < 0x1_0000_0000,
        ;
        (w * 0xcc9e2d51) % 0x1_0000_0000 + (n as u64) <= 0xffff_ffff
    } else {
        true
    }
}

} // verus!
