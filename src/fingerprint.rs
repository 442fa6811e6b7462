//! Fingerprints of file contents, by which a change to a file can be seen.
use vstd::prelude::*;

use std::hash::{Hash, Hasher};
use twox_hash::XxHash64;

verus! {

/// The 64-bit xxHash (seed zero) of a byte vector fed through `Hash`: its
/// length, as a `usize` in the machine's width and byte order, then its
/// bytes. Fingerprints therefore compare only between machines of the same
/// kind.
pub uninterp spec fn xx_hash_of(content: Seq<u8>) -> u64;

/// Relies on twox-hash's `XxHash64` with its default seed: the hash depends on
/// the bytes fed to it alone.
#[verifier::external_body]
fn xx_hash(content: &Vec<u8>) -> (h: u64)
    ensures
        h == xx_hash_of(content@),
{
    let mut hasher = XxHash64::default();
    content.hash(&mut hasher);
    hasher.finish()
}

/// The fingerprint of a file's content.
pub fn content_hash(content: &Vec<u8>) -> (h: u64)
    ensures
        h == xx_hash_of(content@),
{
    xx_hash(content)
}

} // verus!
