//! The hash family: one seeded XXH3 digest per row of the table.
//!
//! A key is hashed in one call of `twox_hash::xxh3::hash64_with_seed`. The
//! crate's streaming `Hash64` is not used: once an input outgrows its
//! 256-byte buffer, what it returns can depend on buffer bytes that the
//! input never wrote.

use vstd::prelude::*;
use vstd::utf8::encode_utf8;

verus! {

/// The 64-bit XXH3 digest of `data` under `seed`, as the `twox_hash` crate
/// computes it in one call.
pub uninterp spec fn xxh3_64(seed: u64, data: Seq<u8>) -> u64;

/// Calls `twox_hash::xxh3::hash64_with_seed`.
///
/// Trusted: that function reads nothing but its two arguments and the
/// crate's constant secret, so equal bytes and equal seeds give equal
/// digests. Nothing else is claimed of the digest.
#[verifier::external_body]
pub(crate) fn hash_once(seed: u64, data: &[u8]) -> (digest: u64)
    ensures
        digest == xxh3_64(seed, data@),
{
    twox_hash::xxh3::hash64_with_seed(data, seed)
}

/// The bytes that stand for a string key: its UTF-8 encoding followed by
/// the byte `0xff`, which no UTF-8 text contains. This is the framing that
/// `str`'s `Hash` impl feeds to a hasher.
pub open spec fn framed(item: Seq<char>) -> Seq<u8> {
    encode_utf8(item).push(0xffu8)
}

/// The digest of `key` in each of `depth` rows; row `i` hashes with seed `i`.
pub open spec fn row_digests(key: Seq<u8>, depth: nat) -> Seq<u64> {
    Seq::new(depth, |i: int| xxh3_64(i as u64, key))
}

/// The column that a digest selects in a row of `width` counters.
pub open spec fn column(digest: u64, width: nat) -> int {
    digest as int % width as int
}

/// Builds the framed bytes of a string key.
pub fn frame(item: &str) -> (key: Vec<u8>)
    ensures
        key@ == framed(item@),
{
    let mut key: Vec<u8> = Vec::new();
    key.extend_from_slice(item.as_bytes());
    key.push(0xffu8);
    key
}

/// Hashes `key` once per row.
pub fn digests(key: &[u8], depth: usize) -> (out: Vec<u64>)
    ensures
        out@ == row_digests(key@, depth as nat),
{
    let mut out: Vec<u64> = Vec::new();
    let mut row: usize = 0;
    while row < depth
        invariant
            row <= depth,
            out@ == row_digests(key@, row as nat),
        decreases depth - row,
    {
        let digest = hash_once(row as u64, key);
        out.push(digest);
        row += 1;
    }
    out
}

/// Reduces a digest to a column of a row of `width` counters.
pub fn slot(digest: u64, width: usize) -> (j: usize)
    requires
        width > 0,
    ensures
        j == column(digest, width as nat),
        j < width,
    no_unwind
{
    (digest % (width as u64)) as usize
}

} // verus!
