//! Hashes and chaining values, and how a compression's output becomes one.
use vstd::prelude::*;
use crate::compress::{bytes_of, compress, compress_spec, le_bytes8, ROOT};

verus! {

/// Thirty-two bytes: a chaining value, or a finalized root hash.
#[derive(Clone, Copy, Debug, PartialEq, Eq)]
pub struct Hash {
    bytes: [u8; 32],
}

impl View for Hash {
    type V = Seq<u8>;

    closed spec fn view(&self) -> Seq<u8> {
        self.bytes@
    }
}

impl Hash {
    pub fn from_bytes(bytes: [u8; 32]) -> (r: Hash)
        ensures
            r@ == bytes@,
    {
        Hash { bytes }
    }

    pub fn as_bytes(&self) -> (r: &[u8; 32])
        ensures
            r@ == self@,
            r@.len() == 32,
    {
        &self.bytes
    }
}

/// The thirty-two bytes that a compression input gives: its chaining value
/// when `is_root` is false, else its root hash (block counter zero and the
/// root flag added).
#[verifier::opaque]
pub open spec fn output_bytes(
    cv: Seq<u32>,
    m: Seq<u32>,
    counter: u64,
    block_len: u32,
    flags: u32,
    is_root: bool,
) -> Seq<u8> {
    if is_root {
        bytes_of(compress_spec(cv, m, 0, block_len, flags | ROOT).take(8))
    } else {
        bytes_of(compress_spec(cv, m, counter, block_len, flags).take(8))
    }
}

/// Finalizes a compression input as a chaining value or as a root hash.
pub fn output_hash(
    cv: &Vec<u32>,
    m: &Vec<u32>,
    counter: u64,
    block_len: u32,
    flags: u32,
    is_root: bool,
) -> (r: Hash)
    requires
        cv@.len() == 8,
        m@.len() == 16,
    ensures
        r@ == output_bytes(cv@, m@, counter, block_len, flags, is_root),
{
    reveal(output_bytes);
    let out = if is_root {
        compress(cv, m, 0, block_len, flags | ROOT)
    } else {
        compress(cv, m, counter, block_len, flags)
    };
    Hash { bytes: le_bytes8(&out) }
}

} // verus!
