//! Whole messages: fed chunk after chunk into an incremental hasher whose
//! leaves are combined by the canonical tree, and the law that this agrees
//! with subtree hashing from chunk zero.
use vstd::prelude::*;
use crate::chunk::{chunk_hash, ChunkState};
use crate::subtree::{
    chunk_count, lemma_npot_bounds, lemma_split, next_power_of_two, npot, parent_cv, parent_hash,
    split_len, subtree_hash, valid_subtree,
};
use crate::compress::CHUNK_LEN;

verus! {

/// The bytes of chunk `i` of `data`: the last chunk may be partial.
pub open spec fn chunk_at(data: Seq<u8>, i: int) -> Seq<u8> {
    let end = if 1024 * (i + 1) < data.len() {
        1024 * (i + 1)
    } else {
        data.len() as int
    };
    data.subrange(1024 * i, end)
}

/// The chaining values of the chunks of `data`, numbered from `start_chunk`.
pub open spec fn leaf_cvs(start_chunk: u64, data: Seq<u8>) -> Seq<Seq<u8>> {
    Seq::new(
        chunk_count(data.len()),
        |i: int| chunk_hash((start_chunk + i) as u64, chunk_at(data, i), false),
    )
}

/// Leaves combined as a left-full binary tree: the left part holds the
/// largest power of two of leaves that is less than their number.
pub open spec fn cv_tree(cvs: Seq<Seq<u8>>, is_root: bool) -> Seq<u8>
    decreases cvs.len() via cv_tree_decreases
{
    if cvs.len() <= 1 {
        cvs[0]
    } else {
        let mid = npot(cvs.len()) / 2;
        parent_hash(
            cv_tree(cvs.subrange(0, mid as int), false),
            cv_tree(cvs.subrange(mid as int, cvs.len() as int), false),
            is_root,
        )
    }
}

#[via_fn]
proof fn cv_tree_decreases(cvs: Seq<Seq<u8>>, is_root: bool) {
    lemma_npot_bounds(cvs.len());
}

/// The hash of a whole message: the root of one chunk, or the root of the
/// tree over the chaining values of its chunks in order.
pub open spec fn message_hash(data: Seq<u8>) -> Seq<u8> {
    if data.len() <= 1024 {
        chunk_hash(0, data, true)
    } else {
        cv_tree(leaf_cvs(0, data), true)
    }
}

/// The chunks of a prefix of whole chunks are the first chunks of the whole.
proof fn lemma_leaves_left(start_chunk: u64, data: Seq<u8>, m: nat)
    requires
        1024 * m <= data.len(),
    ensures
        leaf_cvs(start_chunk, data.subrange(0, 1024 * m as int)) =~= leaf_cvs(
            start_chunk,
            data,
        ).subrange(0, m as int),
{
    let left = data.subrange(0, 1024 * m as int);
    assert(chunk_count(left.len()) == m);
    assert(chunk_count(data.len()) >= m);
    assert forall|i: int| 0 <= i < m implies chunk_at(left, i) == chunk_at(data, i) by {
        assert(chunk_at(left, i) =~= chunk_at(data, i));
    }
}

/// The chunks after a prefix of whole chunks are the last chunks of the whole.
#[verifier::rlimit(40)]
proof fn lemma_leaves_right(start_chunk: u64, data: Seq<u8>, m: nat)
    requires
        1024 * m <= data.len(),
        start_chunk + chunk_count(data.len()) <= 0x1_0000_0000_0000_0000,
    ensures
        leaf_cvs((start_chunk + m) as u64, data.subrange(1024 * m as int, data.len() as int))
            =~= leaf_cvs(start_chunk, data).subrange(m as int, chunk_count(data.len()) as int),
{
    let right = data.subrange(1024 * m as int, data.len() as int);
    let c = chunk_count(data.len());
    assert(right.len() == data.len() - 1024 * m);
    assert(chunk_count(right.len()) + m == c);
    assert forall|i: int| 0 <= i < c - m implies chunk_at(right, i) == chunk_at(data, i + m) by {
        assert(1024 * (i + m) == 1024 * m + 1024 * i);
        assert(chunk_at(right, i) =~= chunk_at(data, i + m));
    }
}

/// Subtree hashing is the tree over the chunks' chaining values.
proof fn lemma_subtree_is_cv_tree(start_chunk: u64, data: Seq<u8>, is_root: bool)
    requires
        data.len() > 0,
        start_chunk + chunk_count(data.len()) <= 0x1_0000_0000_0000_0000,
        data.len() <= 1024 ==> !is_root,
    ensures
        subtree_hash(start_chunk, data, is_root) == cv_tree(leaf_cvs(start_chunk, data), is_root),
    decreases data.len(),
{
    let cvs = leaf_cvs(start_chunk, data);
    if data.len() <= 1024 {
        assert(chunk_count(data.len()) == 1);
        assert(chunk_at(data, 0) =~= data);
    } else {
        let len = data.len();
        lemma_split(len);
        let c = chunk_count(len);
        let mid = npot(c) / 2;
        let mid_bytes = split_len(len);
        assert(mid_bytes == 1024 * mid);
        let left = data.subrange(0, mid_bytes as int);
        let right = data.subrange(mid_bytes as int, len as int);
        lemma_subtree_is_cv_tree(start_chunk, left, false);
        lemma_subtree_is_cv_tree((start_chunk + mid) as u64, right, false);
        lemma_leaves_left(start_chunk, data, mid);
        lemma_leaves_right(start_chunk, data, mid);
        assert(cvs.len() == c);
    }
}

/// Hashing a message incrementally agrees with hashing it as the subtree
/// that starts at chunk zero, with root finalization; and that range is
/// always a valid subtree.
pub proof fn law_message_is_root_subtree(data: Seq<u8>)
    requires
        data.len() <= usize::MAX,
    ensures
        valid_subtree(0, data.len()),
        message_hash(data) == subtree_hash(0, data, true),
{
    lemma_npot_bounds(chunk_count(data.len()));
    if data.len() > 1024 {
        assert(chunk_count(data.len()) <= 0x40_0000_0000_0000);
        lemma_subtree_is_cv_tree(0, data, true);
    }
}

/// What a list of hashes holds, as byte strings.
pub open spec fn hash_views(hs: Seq<crate::output::Hash>) -> Seq<Seq<u8>> {
    hs.map_values(|h: crate::output::Hash| h@)
}

/// Combines chaining values of consecutive chunks as `cv_tree` does.
fn combine_cvs(cvs: &[crate::output::Hash], is_root: bool) -> (r: crate::output::Hash)
    requires
        1 <= cvs@.len() <= 0x40_0000_0000_0000,
    ensures
        r@ == cv_tree(hash_views(cvs@), is_root),
    decreases cvs@.len(),
{
    if cvs.len() == 1 {
        cvs[0]
    } else {
        let p = next_power_of_two(cvs.len() as u64);
        proof {
            lemma_npot_bounds(cvs@.len());
        }
        let mid: usize = (p / 2) as usize;
        let (left_cvs, right_cvs) = cvs.split_at(mid);
        assert(hash_views(left_cvs@) =~= hash_views(cvs@).subrange(0, mid as int));
        assert(hash_views(right_cvs@) =~= hash_views(cvs@).subrange(mid as int, cvs@.len() as int));
        let left = combine_cvs(left_cvs, false);
        let right = combine_cvs(right_cvs, false);
        parent_cv(&left, &right, is_root)
    }
}

fn copy_hashes(hs: &Vec<crate::output::Hash>) -> (r: Vec<crate::output::Hash>)
    ensures
        r@ == hs@,
{
    let mut r: Vec<crate::output::Hash> = Vec::new();
    let mut i: usize = 0;
    while i < hs.len()
        invariant
            i <= hs@.len(),
            r@ == hs@.subrange(0, i as int),
        decreases hs@.len() - i,
    {
        r.push(hs[i]);
        i = i + 1;
        assert(r@ =~= hs@.subrange(0, i as int));
    }
    assert(r@ =~= hs@);
    r
}

/// A chunk that lies wholly within `a` is the same chunk of `a + b`.
proof fn lemma_chunk_at_extend(a: Seq<u8>, b: Seq<u8>, i: int)
    requires
        0 <= i,
        1024 * (i + 1) <= a.len(),
    ensures
        chunk_at(a + b, i) == chunk_at(a, i),
{
    assert(chunk_at(a + b, i) =~= chunk_at(a, i));
}

/// An incremental hasher for a whole message: each chunk, once full and
/// followed by more input, is reduced to its chaining value.
pub struct Hasher {
    cvs: Vec<crate::output::Hash>,
    chunk: ChunkState,
    input: Ghost<Seq<u8>>,
}

impl Hasher {
    /// The bytes fed so far.
    pub closed spec fn bytes(&self) -> Seq<u8> {
        self.input@
    }

    /// Everything that `wf` asks but that the last chunk be nonempty.
    closed spec fn parts_ok(&self) -> bool {
        let n = self.cvs@.len();
        let input = self.input@;
        &&& self.chunk.wf()
        &&& self.chunk.counter() == n
        &&& input.len() <= usize::MAX
        &&& input.len() == 1024 * n + self.chunk.bytes().len()
        &&& self.chunk.bytes() == input.subrange(1024 * n as int, input.len() as int)
        &&& forall|i: int|
            0 <= i < n ==> #[trigger] self.cvs@[i]@ == chunk_hash(
                i as u64,
                chunk_at(input, i),
                false,
            )
    }

    pub closed spec fn wf(&self) -> bool {
        &&& self.parts_ok()
        &&& (self.cvs@.len() > 0 ==> self.chunk.bytes().len() > 0)
    }

    /// A hasher that has been fed nothing.
    pub fn new() -> (r: Hasher)
        ensures
            r.wf(),
            r.bytes() == Seq::<u8>::empty(),
    {
        let r = Hasher { cvs: Vec::new(), chunk: ChunkState::new(0), input: Ghost(Seq::empty()) };
        assert(r.chunk.bytes() =~= r.input@.subrange(0, 0));
        r
    }

    /// Reduces the full current chunk to its chaining value and opens the next.
    fn finish_chunk(&mut self)
        requires
            old(self).parts_ok(),
            old(self).chunk.bytes().len() == 1024,
        ensures
            final(self).parts_ok(),
            final(self).input@ == old(self).input@,
            final(self).chunk.bytes().len() == 0,
    {
        let n = self.cvs.len();
        let cv = self.chunk.finalize(false);
        proof {
            assert(chunk_at(self.input@, n as int) =~= self.chunk.bytes());
        }
        self.cvs.push(cv);
        self.chunk = ChunkState::new((n + 1) as u64);
        proof {
            let input = self.input@;
            assert(self.chunk.bytes() =~= input.subrange(1024 * (n + 1) as int, input.len() as int));
            assert forall|i: int| 0 <= i < n + 1 implies #[trigger] self.cvs@[i]@ == chunk_hash(
                i as u64,
                chunk_at(input, i),
                false,
            ) by {
                if i < n {
                    assert(self.cvs@[i] == old(self).cvs@[i]);
                }
            }
        }
    }

    /// Feeds one piece that fits the current chunk, or the next one where
    /// the current one is full.
    fn feed_piece(&mut self, piece: &[u8])
        requires
            old(self).wf(),
            0 < piece@.len(),
            old(self).bytes().len() + piece@.len() <= usize::MAX,
            old(self).chunk.bytes().len() < 1024 ==> old(self).chunk.bytes().len() + piece@.len()
                <= 1024,
            old(self).chunk.bytes().len() == 1024 ==> piece@.len() <= 1024,
        ensures
            final(self).wf(),
            final(self).bytes() == old(self).bytes() + piece@,
    {
        if self.chunk.len() == CHUNK_LEN {
            self.finish_chunk();
        }
        let ghost before = self.input@;
        let ghost grown = before + piece@;
        assert(self.chunk.bytes().len() + piece@.len() <= 1024);
        let fed = self.chunk.update(piece);
        assert(fed is Ok);
        self.input = Ghost(grown);
        proof {
            let n = self.cvs@.len();
            assert forall|i: int| 0 <= i < n implies #[trigger] self.cvs@[i]@ == chunk_hash(
                i as u64,
                chunk_at(grown, i),
                false,
            ) by {
                lemma_chunk_at_extend(before, piece@, i);
            }
            assert(self.chunk.bytes() =~= grown.subrange(1024 * n as int, grown.len() as int));
        }
    }

    /// Feeds `input` after the bytes fed so far.
    pub fn update(&mut self, input: &[u8])
        requires
            old(self).wf(),
            old(self).bytes().len() + input@.len() <= usize::MAX,
        ensures
            final(self).wf(),
            final(self).bytes() == old(self).bytes() + input@,
    {
        let ghost start = self.input@;
        let len: usize = input.len();
        let mut i: usize = 0;
        while i < len
            invariant
                self.wf(),
                i <= len,
                len == input@.len(),
                start.len() + len <= usize::MAX,
                self.input@ == start + input@.subrange(0, i as int),
            decreases len - i,
        {
            let used = self.chunk.len();
            let room: usize = if used == CHUNK_LEN {
                CHUNK_LEN
            } else {
                CHUNK_LEN - used
            };
            let take: usize = if len - i < room {
                len - i
            } else {
                room
            };
            let piece = vstd::slice::slice_subrange(input, i, i + take);
            self.feed_piece(piece);
            assert(self.input@ =~= start + input@.subrange(0, (i + take) as int));
            i = i + take;
        }
        assert(input@.subrange(0, len as int) =~= input@);
    }

    /// The leaves that `finalize` combines are the message's chunks.
    proof fn lemma_leaves(&self, leaves: Seq<crate::output::Hash>, last: crate::output::Hash)
        requires
            self.wf(),
            self.cvs@.len() > 0,
            last@ == chunk_hash(self.cvs@.len() as u64, self.chunk.bytes(), false),
            leaves == self.cvs@.push(last),
        ensures
            1 <= leaves.len() <= 0x40_0000_0000_0000,
            cv_tree(hash_views(leaves), true) == message_hash(self.bytes()),
    {
        let input = self.input@;
        let n = self.cvs@.len();
        let k = self.chunk.bytes().len();
        self.chunk.lemma_bounded();
        assert(input.len() == 1024 * n + k && 0 < k <= 1024);
        assert(chunk_count(input.len()) == n + 1) by {
            assert((1024 * n + k) / 1024 == n + k / 1024) by (nonlinear_arith)
                requires
                    0 < k <= 1024,
            ;
        }
        assert(chunk_at(input, n as int) =~= self.chunk.bytes());
        assert(hash_views(leaves) =~= leaf_cvs(0, input)) by {
            assert forall|i: int| 0 <= i < n implies hash_views(leaves)[i] == leaf_cvs(
                0,
                input,
            )[i] by {
                assert(leaves[i] == self.cvs@[i]);
                assert(self.cvs@[i]@ == chunk_hash(i as u64, chunk_at(input, i), false));
            }
        }
    }

    /// The root hash of the bytes fed so far. The state is left as it was.
    pub fn finalize(&self) -> (r: crate::output::Hash)
        requires
            self.wf(),
        ensures
            r@ == message_hash(self.bytes()),
    {
        let n: usize = self.cvs.len();
        if n == 0 {
            proof {
                self.chunk.lemma_bounded();
                assert(self.chunk.bytes() =~= self.input@);
            }
            self.chunk.finalize(true)
        } else {
            let mut leaves = copy_hashes(&self.cvs);
            let last = self.chunk.finalize(false);
            leaves.push(last);
            proof {
                self.lemma_leaves(leaves@, last);
            }
            combine_cvs(leaves.as_slice(), true)
        }
    }
}

/// The hash of a whole message.
pub fn hash(data: &[u8]) -> (r: crate::output::Hash)
    ensures
        r@ == message_hash(data@),
{
    let len: usize = data.len();
    assert(len == data@.len());
    let mut hasher = Hasher::new();
    hasher.update(data);
    assert(hasher.bytes() =~= data@);
    hasher.finalize()
}

} // verus!
