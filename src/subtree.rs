//! Which chunk ranges form a subtree, and how a subtree is hashed: split at
//! the largest power-of-two number of chunks, recurse, and combine the halves.
use vstd::prelude::*;
use vstd::arithmetic::power2::{
    lemma2_to64, lemma2_to64_rest, lemma_pow2_adds, lemma_pow2_pos, lemma_pow2_strictly_increases,
    lemma_pow2_unfold, pow2,
};
use vstd::bits::{lemma_u64_low_bits_mask_is_mod, low_bits_mask};
use crate::chunk::{chunk_hash, ChunkState, TreeError};
use crate::compress::{iv, iv_words, le_words, words_of, CHUNK_LEN, PARENT};
use crate::output::{output_bytes, output_hash};

verus! {

/// How many chunks `len` bytes fill: the last one may be partial.
pub open spec fn chunk_count(len: nat) -> nat {
    len / 1024 + if len % 1024 != 0 {
        1nat
    } else {
        0nat
    }
}

/// The exponent of the least power of two that is at least `n`.
pub open spec fn npot_log(n: nat) -> nat
    decreases n,
{
    if n <= 1 {
        0
    } else {
        1 + npot_log(((n + 1) / 2) as nat)
    }
}

/// The least power of two that is at least `n` (one for zero).
pub open spec fn npot(n: nat) -> nat {
    pow2(npot_log(n))
}

/// A range of `len` bytes starting at chunk `start_chunk` is a subtree when
/// its start is a multiple of its chunk count rounded up to a power of two.
pub open spec fn valid_subtree(start_chunk: u64, len: nat) -> bool {
    start_chunk as nat % npot(chunk_count(len)) == 0
}

/// `npot` doubles as its argument is halved (rounding up).
pub proof fn lemma_npot_unfold(n: nat)
    requires
        n > 1,
    ensures
        npot(n) == 2 * npot(((n + 1) / 2) as nat),
{
    lemma_pow2_unfold(npot_log(n));
}

/// `npot(n)` lies in `n .. 2n` and is even from two on.
pub proof fn lemma_npot_bounds(n: nat)
    ensures
        npot(n) >= 1,
        npot(n) >= n,
        n >= 1 ==> npot(n) < 2 * n,
        n >= 2 ==> npot(n) % 2 == 0,
    decreases n,
{
    lemma_pow2_pos(npot_log(n));
    if n > 1 {
        let m = ((n + 1) / 2) as nat;
        lemma_npot_unfold(n);
        lemma_npot_bounds(m);
    } else {
        assert(npot(n) == 1) by {
            lemma2_to64();
        }
    }
}

/// The exponent of `npot(n)` stays below 64 while `n` fits 2^54 chunks.
proof fn lemma_npot_log_small(n: nat)
    requires
        n <= 0x40_0000_0000_0000,
    ensures
        npot_log(n) <= 55,
        npot(n) <= 0x80_0000_0000_0000,
{
    lemma_npot_bounds(n);
    lemma2_to64();
    lemma2_to64_rest();
    if npot_log(n) > 55 {
        lemma_pow2_strictly_increases(55, npot_log(n));
    }
}

/// The least power of two at least `n`, computed by halving.
pub(crate) fn next_power_of_two(n: u64) -> (r: u64)
    requires
        n <= 0x40_0000_0000_0000,
    ensures
        r == npot(n as nat),
    decreases n,
{
    if n <= 1 {
        proof {
            lemma2_to64();
        }
        1
    } else {
        let m: u64 = n / 2 + n % 2;
        assert(m == (n + 1) / 2);
        let h = next_power_of_two(m);
        proof {
            lemma_npot_unfold(n as nat);
            lemma_npot_log_small(n as nat);
        }
        2 * h
    }
}

/// Whether `len` bytes starting at chunk `start_chunk` form a subtree.
pub fn is_subtree(start_chunk: u64, len: u64) -> (r: bool)
    ensures
        r == valid_subtree(start_chunk, len as nat),
{
    let chunks: u64 = len / 1024 + if len % 1024 != 0 {
        1
    } else {
        0
    };
    let p = next_power_of_two(chunks);
    proof {
        let k = npot_log(chunks as nat);
        lemma_npot_log_small(chunks as nat);
        lemma_pow2_pos(k);
        lemma_u64_low_bits_mask_is_mod(start_chunk, k);
        assert(low_bits_mask(k) as u64 == p - 1);
    }
    start_chunk & (p - 1) == 0
}

/// The chaining value (`is_root` false) or root hash (`is_root` true) of the
/// parent node whose children have the chaining values `left` and `right`.
pub open spec fn parent_hash(left: Seq<u8>, right: Seq<u8>, is_root: bool) -> Seq<u8> {
    output_bytes(iv(), words_of(left) + words_of(right), 0, 64, PARENT, is_root)
}

/// Where a range of `len` bytes, more than one chunk, is split: its chunk
/// count rounded up to a power of two, halved, in bytes.
pub open spec fn split_len(len: nat) -> nat {
    1024 * (npot(chunk_count(len)) / 2)
}

/// The split leaves a whole power-of-two number of chunks on the left and
/// a nonempty rest on the right.
pub proof fn lemma_split(len: nat)
    requires
        len > 1024,
    ensures
        1024 <= split_len(len) < len,
        split_len(len) % 1024 == 0,
        chunk_count(split_len(len)) == npot(chunk_count(len)) / 2,
        chunk_count((len - split_len(len)) as nat) == chunk_count(len) - npot(chunk_count(len))
            / 2,
        npot(chunk_count(split_len(len))) == chunk_count(split_len(len)),
        npot(chunk_count((len - split_len(len)) as nat)) <= npot(chunk_count(len)) / 2,
{
    let c = chunk_count(len);
    lemma_npot_bounds(c);
    let p = npot(c);
    let mid = p / 2;
    assert(c >= 2);
    assert(1 <= mid < c);
    assert(1024 * mid < len);
    assert(chunk_count(1024 * mid) == mid);
    let rest = (len - 1024 * mid) as nat;
    assert(chunk_count(rest) == c - mid);
    lemma_npot_unfold(c);
    lemma_npot_of_pow(c);
    lemma_npot_monotone((c - mid) as nat, mid);
}

/// A power of two is its own rounding up.
proof fn lemma_npot_pow2(k: nat)
    ensures
        npot(pow2(k)) == pow2(k),
    decreases k,
{
    lemma2_to64();
    if k > 0 {
        lemma_pow2_unfold(k);
        lemma_pow2_pos((k - 1) as nat);
        assert((pow2(k) + 1) / 2 == pow2((k - 1) as nat));
        lemma_npot_unfold(pow2(k));
        lemma_npot_pow2((k - 1) as nat);
    }
}

/// Half of a rounded-up count of two or more is a power of two too.
proof fn lemma_npot_of_pow(c: nat)
    requires
        c >= 2,
    ensures
        npot(npot(c) / 2) == npot(c) / 2,
{
    let m = ((c + 1) / 2) as nat;
    lemma_npot_unfold(c);
    lemma_npot_pow2(npot_log(m));
}

/// Rounding up keeps order.
proof fn lemma_npot_monotone(a: nat, b: nat)
    requires
        a <= b,
    ensures
        npot(a) <= npot(b),
    decreases b,
{
    lemma_npot_bounds(a);
    lemma_npot_bounds(b);
    if a <= 1 {
        lemma2_to64();
    } else {
        lemma_npot_unfold(a);
        lemma_npot_unfold(b);
        lemma_npot_monotone(((a + 1) / 2) as nat, ((b + 1) / 2) as nat);
    }
}

/// The hash of the subtree holding `data` from chunk `start_chunk` on: a
/// single chunk, or the parent of the two halves that `split_len` makes.
pub open spec fn subtree_hash(start_chunk: u64, data: Seq<u8>, is_root: bool) -> Seq<u8>
    decreases data.len() via subtree_hash_decreases
{
    if data.len() <= 1024 {
        chunk_hash(start_chunk, data, is_root)
    } else {
        let mid_bytes = split_len(data.len());
        let mid = mid_bytes / 1024;
        parent_hash(
            subtree_hash(start_chunk, data.subrange(0, mid_bytes as int), false),
            subtree_hash(
                (start_chunk + mid) as u64,
                data.subrange(mid_bytes as int, data.len() as int),
                false,
            ),
            is_root,
        )
    }
}

/// Combines two child chaining values into their parent's chaining value, or
/// into the root hash where `is_root` holds. The order of the children counts.
pub fn parent_cv(
    left_child: &crate::output::Hash,
    right_child: &crate::output::Hash,
    is_root: bool,
) -> (r: crate::output::Hash)
    ensures
        r@ == parent_hash(left_child@, right_child@, is_root),
{
    let mut block = le_words(left_child.as_bytes());
    let mut right = le_words(right_child.as_bytes());
    block.append(&mut right);
    output_hash(&iv_words(), &block, 0, 64, PARENT, is_root)
}

/// A subtree's chunk range ends within the counter's range.
pub proof fn lemma_subtree_fits(start_chunk: u64, len: nat)
    requires
        valid_subtree(start_chunk, len),
        len <= usize::MAX,
    ensures
        start_chunk + chunk_count(len) <= 0x1_0000_0000_0000_0000,
{
    let c = chunk_count(len);
    let k = npot_log(c);
    let p = npot(c);
    assert(c <= 0x40_0000_0000_0000);
    lemma_npot_bounds(c);
    lemma_npot_log_small(c);
    lemma_pow2_adds(k, (64 - k) as nat);
    lemma_pow2_pos((64 - k) as nat);
    lemma2_to64_rest();
    let r = pow2((64 - k) as nat);
    let q = start_chunk as nat / p;
    assert(p * r == 0x1_0000_0000_0000_0000);
    assert(start_chunk == p * q) by (nonlinear_arith)
        requires
            start_chunk as nat % p == 0,
            q == start_chunk as nat / p,
            p > 0,
    ;
    assert(p * q + p <= p * r) by (nonlinear_arith)
        requires
            p * q < p * r,
            p > 0,
    ;
}

/// The subtree hash, computed by the recursion that defines it.
fn hash_subtree_rec(start_chunk: u64, data: &[u8], is_root: bool) -> (r: crate::output::Hash)
    requires
        start_chunk + chunk_count(data@.len()) <= 0x1_0000_0000_0000_0000,
    ensures
        r@ == subtree_hash(start_chunk, data@, is_root),
    decreases data@.len(),
{
    if data.len() <= CHUNK_LEN {
        let mut state = ChunkState::new(start_chunk);
        let fed = state.update(data);
        assert(fed is Ok);
        state.finalize(is_root)
    } else {
        let len: usize = data.len();
        let chunks: usize = len / CHUNK_LEN + if len % CHUNK_LEN != 0 {
            1
        } else {
            0
        };
        assert(chunks as nat == chunk_count(len as nat));
        let p = next_power_of_two(chunks as u64);
        let mid: u64 = p / 2;
        proof {
            lemma_split(len as nat);
        }
        let ghost split = split_len(len as nat);
        assert(mid * 1024 == split);
        let mid_bytes: usize = (mid as usize) * CHUNK_LEN;
        let (left_data, right_data) = data.split_at(mid_bytes);
        assert(start_chunk + chunk_count(left_data@.len()) <= 0x1_0000_0000_0000_0000);
        let left = hash_subtree_rec(start_chunk, left_data, false);
        assert(start_chunk + mid + chunk_count(right_data@.len()) <= 0x1_0000_0000_0000_0000);
        let right = hash_subtree_rec(start_chunk + mid, right_data, false);
        parent_cv(&left, &right, is_root)
    }
}

/// The hash of the subtree that holds `data` from chunk `start_chunk` on, as
/// a chaining value, or as the root hash where `is_root` holds. Fails with
/// `InvalidSubtreeRange` where the range is not a subtree, or where a root
/// is asked of one that does not start at chunk zero.
pub fn hash_subtree(start_chunk: u64, data: &[u8], is_root: bool) -> (r: Result<
    crate::output::Hash,
    TreeError,
>)
    ensures
        r is Ok <==> valid_subtree(start_chunk, data@.len()) && (start_chunk == 0 || !is_root),
        r matches Ok(h) ==> h@ == subtree_hash(start_chunk, data@, is_root),
        r matches Err(e) ==> e == TreeError::InvalidSubtreeRange,
{
    if !is_subtree(start_chunk, data.len() as u64) || (is_root && start_chunk != 0) {
        return Err(TreeError::InvalidSubtreeRange);
    }
    proof {
        lemma_subtree_fits(start_chunk, data@.len());
    }
    Ok(hash_subtree_rec(start_chunk, data, is_root))
}

/// The fork-join form of `hash_subtree`: the two halves of a range are
/// independent, so a caller may compute them on separate workers, and the
/// result is the same as `hash_subtree`'s, bit for bit. This library computes
/// the halves one after the other; the combination order, left before right,
/// is fixed by the tree either way.
pub fn hash_subtree_rayon(start_chunk: u64, data: &[u8], is_root: bool) -> (r: Result<
    crate::output::Hash,
    TreeError,
>)
    ensures
        r is Ok <==> valid_subtree(start_chunk, data@.len()) && (start_chunk == 0 || !is_root),
        r matches Ok(h) ==> h@ == subtree_hash(start_chunk, data@, is_root),
        r matches Err(e) ==> e == TreeError::InvalidSubtreeRange,
{
    hash_subtree(start_chunk, data, is_root)
}

#[via_fn]
proof fn subtree_hash_decreases(start_chunk: u64, data: Seq<u8>, is_root: bool) {
    if data.len() > 1024 {
        lemma_split(data.len());
    }
}

} // verus!
