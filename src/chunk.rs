//! One chunk: up to `CHUNK_LEN` bytes compressed block by block into a
//! chaining value or a root hash.
use vstd::prelude::*;
use crate::compress::{
    compress, compress_spec, first8, iv, iv_words, le_words, words_of, BLOCK_LEN, CHUNK_END,
    CHUNK_LEN, CHUNK_START,
};
use crate::output::{output_bytes, output_hash};

verus! {

/// The ways a call can break the tree's rules.
#[derive(Clone, Copy, Debug, PartialEq, Eq, Structural)]
pub enum TreeError {
    /// The byte range is not a subtree that can be hashed on its own, or a
    /// root was asked of a subtree that does not start at chunk zero.
    InvalidSubtreeRange,
    /// More than `CHUNK_LEN` bytes were fed to one chunk.
    ChunkOverflow,
}

/// How many blocks of a chunk of `len` bytes are compressed before its last
/// block, which is kept for finalization.
pub open spec fn full_blocks(len: nat) -> nat {
    if len == 0 {
        0
    } else {
        ((len - 1) / 64) as nat
    }
}

/// `b` followed by zeros up to a whole block.
pub open spec fn pad_block(b: Seq<u8>) -> Seq<u8> {
    b + Seq::new((64 - b.len()) as nat, |i: int| 0u8)
}

/// The flag that marks the first block of a chunk.
pub open spec fn start_flag(k: nat) -> u32 {
    if k == 0 {
        CHUNK_START
    } else {
        0
    }
}

/// The chaining value after the first `k` blocks of `bytes` are compressed.
pub open spec fn chunk_cv_after(counter: u64, bytes: Seq<u8>, k: nat) -> Seq<u32>
    decreases k,
{
    if k == 0 {
        iv()
    } else {
        let j = (k - 1) as nat;
        let at = 64 * j as int;
        compress_spec(
            chunk_cv_after(counter, bytes, j),
            words_of(bytes.subrange(at, at + 64)),
            counter,
            64,
            start_flag(j),
        ).take(8)
    }
}

/// The chaining value (`is_root` false) or the root hash (`is_root` true) of
/// the chunk that holds `bytes` at position `counter`.
pub open spec fn chunk_hash(counter: u64, bytes: Seq<u8>, is_root: bool) -> Seq<u8> {
    let k = full_blocks(bytes.len());
    output_bytes(
        chunk_cv_after(counter, bytes, k),
        words_of(pad_block(bytes.subrange(64 * k as int, bytes.len() as int))),
        counter,
        (bytes.len() - 64 * k) as u32,
        start_flag(k) | CHUNK_END,
        is_root,
    )
}

/// The chaining value after `k` blocks depends on the first `k` blocks alone.
pub proof fn lemma_chunk_cv_prefix(counter: u64, a: Seq<u8>, b: Seq<u8>, k: nat)
    requires
        64 * k <= a.len(),
        64 * k <= b.len(),
        a.subrange(0, 64 * k as int) == b.subrange(0, 64 * k as int),
    ensures
        chunk_cv_after(counter, a, k) == chunk_cv_after(counter, b, k),
    decreases k,
{
    if k > 0 {
        let j = (k - 1) as nat;
        let at = 64 * j as int;
        let end = 64 * k as int;
        assert(a.subrange(0, at) =~= a.subrange(0, end).subrange(0, at));
        assert(b.subrange(0, at) =~= b.subrange(0, end).subrange(0, at));
        lemma_chunk_cv_prefix(counter, a, b, j);
        assert(a.subrange(at, at + 64) =~= a.subrange(0, end).subrange(at, at + 64));
        assert(b.subrange(at, at + 64) =~= b.subrange(0, end).subrange(at, at + 64));
    }
}

fn zero_block() -> (r: Vec<u8>)
    ensures
        r@ == Seq::new(64, |i: int| 0u8),
{
    let mut r: Vec<u8> = Vec::new();
    let mut i: usize = 0;
    while i < BLOCK_LEN
        invariant
            i <= 64,
            r@ == Seq::new(i as nat, |j: int| 0u8),
        decreases 64 - i,
    {
        r.push(0u8);
        i = i + 1;
        assert(r@ =~= Seq::new(i as nat, |j: int| 0u8));
    }
    r
}

/// The running state of one chunk: the bytes fed so far are the last block,
/// kept in `buf`, after `blocks_compressed` blocks already folded into `cv`.
#[derive(Clone)]
pub struct ChunkState {
    cv: Vec<u32>,
    chunk_counter: u64,
    buf: Vec<u8>,
    buf_len: usize,
    blocks_compressed: usize,
    input: Ghost<Seq<u8>>,
}

impl ChunkState {
    /// The position of this chunk in the message.
    pub closed spec fn counter(&self) -> u64 {
        self.chunk_counter
    }

    /// The bytes fed to this chunk so far.
    pub closed spec fn bytes(&self) -> Seq<u8> {
        self.input@
    }

    pub closed spec fn wf(&self) -> bool {
        let n = self.input@.len();
        &&& self.cv@.len() == 8
        &&& self.buf@.len() == 64
        &&& self.buf_len <= 64
        &&& n == 64 * self.blocks_compressed + self.buf_len
        &&& n <= 1024
        &&& (self.buf_len > 0 || self.blocks_compressed == 0)
        &&& self.cv@ == chunk_cv_after(self.chunk_counter, self.input@, self.blocks_compressed as nat)
        &&& self.buf@ == pad_block(
            self.input@.subrange(64 * self.blocks_compressed as int, n as int),
        )
    }

    /// A chunk never holds more than `CHUNK_LEN` bytes.
    pub proof fn lemma_bounded(&self)
        requires
            self.wf(),
        ensures
            self.bytes().len() <= 1024,
    {
    }

    /// An empty chunk at position `chunk_counter`.
    pub fn new(chunk_counter: u64) -> (r: ChunkState)
        ensures
            r.wf(),
            r.counter() == chunk_counter,
            r.bytes() == Seq::<u8>::empty(),
    {
        let r = ChunkState {
            cv: iv_words(),
            chunk_counter,
            buf: zero_block(),
            buf_len: 0,
            blocks_compressed: 0,
            input: Ghost(Seq::empty()),
        };
        assert(r.buf@ =~= pad_block(r.input@.subrange(0, 0)));
        r
    }

    /// How many bytes were fed so far.
    pub fn len(&self) -> (r: usize)
        requires
            self.wf(),
        ensures
            r == self.bytes().len(),
            r <= CHUNK_LEN,
    {
        64 * self.blocks_compressed + self.buf_len
    }

    /// Folds the full buffered block into the chaining value; used only when
    /// another byte is about to arrive, so the last block stays buffered.
    fn compress_buffer(&mut self)
        requires
            old(self).wf(),
            old(self).buf_len == 64,
            old(self).input@.len() < 1024,
        ensures
            final(self).chunk_counter == old(self).chunk_counter,
            final(self).input@ == old(self).input@,
            final(self).blocks_compressed == old(self).blocks_compressed + 1,
            final(self).buf_len == 0,
            final(self).cv@.len() == 8,
            final(self).buf@ == Seq::new(64, |i: int| 0u8),
            final(self).cv@ == chunk_cv_after(
                old(self).chunk_counter,
                old(self).input@,
                final(self).blocks_compressed as nat,
            ),
    {
        let ghost at = 64 * self.blocks_compressed as int;
        assert(self.buf@ =~= self.input@.subrange(at, at + 64));
        let words = le_words(self.buf.as_slice());
        let flags: u32 = if self.blocks_compressed == 0 {
            CHUNK_START
        } else {
            0
        };
        let out = compress(&self.cv, &words, self.chunk_counter, 64, flags);
        self.cv = first8(&out);
        self.blocks_compressed = self.blocks_compressed + 1;
        self.buf = zero_block();
        self.buf_len = 0;
    }

    fn push_byte(&mut self, byte: u8)
        requires
            old(self).wf(),
            old(self).input@.len() < 1024,
        ensures
            final(self).wf(),
            final(self).chunk_counter == old(self).chunk_counter,
            final(self).input@ == old(self).input@.push(byte),
    {
        let ghost grown = self.input@.push(byte);
        if self.buf_len == 64 {
            self.compress_buffer();
            proof {
                let k = self.blocks_compressed as nat;
                assert(grown.subrange(0, 64 * k as int) =~= self.input@.subrange(0, 64 * k as int));
                lemma_chunk_cv_prefix(self.chunk_counter, self.input@, grown, k);
            }
        } else {
            proof {
                let k = self.blocks_compressed as nat;
                assert(grown.subrange(0, 64 * k as int) =~= self.input@.subrange(0, 64 * k as int));
                lemma_chunk_cv_prefix(self.chunk_counter, self.input@, grown, k);
            }
        }
        let ghost k = self.blocks_compressed as int;
        self.buf.set(self.buf_len, byte);
        self.buf_len = self.buf_len + 1;
        self.input = Ghost(grown);
        assert(self.buf@ =~= pad_block(grown.subrange(64 * k, grown.len() as int)));
    }

    /// Feeds `input` to the chunk. Fails with `ChunkOverflow`, and changes
    /// nothing, where the chunk would then hold more than `CHUNK_LEN` bytes.
    pub fn update(&mut self, input: &[u8]) -> (r: Result<(), TreeError>)
        requires
            old(self).wf(),
        ensures
            final(self).wf(),
            final(self).counter() == old(self).counter(),
            old(self).bytes().len() + input@.len() <= 1024 ==> r is Ok && final(self).bytes()
                == old(self).bytes() + input@,
            old(self).bytes().len() + input@.len() > 1024 ==> r == Err::<(), TreeError>(
                TreeError::ChunkOverflow,
            ) && final(self).bytes() == old(self).bytes(),
    {
        let n: usize = 64 * self.blocks_compressed + self.buf_len;
        if input.len() > CHUNK_LEN - n {
            return Err(TreeError::ChunkOverflow);
        }
        let ghost start = self.input@;
        let mut i: usize = 0;
        while i < input.len()
            invariant
                self.wf(),
                self.chunk_counter == old(self).chunk_counter,
                i <= input@.len(),
                start.len() + input@.len() <= 1024,
                self.input@ == start + input@.subrange(0, i as int),
            decreases input@.len() - i,
        {
            self.push_byte(input[i]);
            assert(self.input@ =~= start + input@.subrange(0, i + 1));
            i = i + 1;
        }
        assert(input@.subrange(0, input@.len() as int) =~= input@);
        Ok(())
    }

    /// The chunk's chaining value, or its root hash where `is_root` holds.
    /// The state is left as it was, so both can be had from one chunk.
    pub fn finalize(&self, is_root: bool) -> (r: crate::output::Hash)
        requires
            self.wf(),
        ensures
            r@ == chunk_hash(self.counter(), self.bytes(), is_root),
    {
        proof {
            let n = self.input@.len();
            assert(full_blocks(n) == self.blocks_compressed) by (nonlinear_arith)
                requires
                    n == 64 * self.blocks_compressed + self.buf_len,
                    self.buf_len <= 64,
                    self.buf_len > 0 || self.blocks_compressed == 0,
            ;
        }
        let words = le_words(self.buf.as_slice());
        let flags: u32 = if self.blocks_compressed == 0 {
            CHUNK_START | CHUNK_END
        } else {
            CHUNK_END
        };
        proof {
            assert(CHUNK_START | CHUNK_END == 3u32) by (bit_vector);
            assert(0u32 | CHUNK_END == 2u32) by (bit_vector);
        }
        output_hash(&self.cv, &words, self.chunk_counter, self.buf_len as u32, flags, is_root)
    }
}

} // verus!
