//! The block compression function and the byte/word conversions around it.
use vstd::prelude::*;

verus! {

/// Bytes in one compression block.
pub const BLOCK_LEN: usize = 64;

/// Bytes in one chunk, the leaf unit of the tree.
pub const CHUNK_LEN: usize = 1024;

/// Bytes in a chaining value or a hash.
pub const OUT_LEN: usize = 32;

/// Flag of the first block of a chunk.
pub const CHUNK_START: u32 = 1;

/// Flag of the last block of a chunk.
pub const CHUNK_END: u32 = 2;

/// Flag of a parent node's block.
pub const PARENT: u32 = 4;

/// Flag of the root node's finalization.
pub const ROOT: u32 = 8;

pub const IV0: u32 = 0x6A09E667;

pub const IV1: u32 = 0xBB67AE85;

pub const IV2: u32 = 0x3C6EF372;

pub const IV3: u32 = 0xA54FF53A;

pub const IV4: u32 = 0x510E527F;

pub const IV5: u32 = 0x9B05688C;

pub const IV6: u32 = 0x1F83D9AB;

pub const IV7: u32 = 0x5BE0CD19;

/// The initial chaining value.
pub open spec fn iv() -> Seq<u32> {
    seq![IV0, IV1, IV2, IV3, IV4, IV5, IV6, IV7]
}

/// Where each message word moves between two rounds.
pub open spec fn msg_schedule() -> Seq<int> {
    seq![2, 6, 3, 10, 7, 0, 4, 13, 1, 11, 12, 5, 9, 14, 15, 8]
}

/// Addition modulo 2^32.
pub open spec fn add32(x: u32, y: u32) -> u32 {
    vstd::wrapping::u32_specs::wrapping_add(x, y)
}

/// Right rotation of a word by `n` bits.
pub open spec fn rotr(x: u32, n: u32) -> u32 {
    (x >> n) | (x << (32 - n) as u32)
}

/// The quarter-round mixing function on the state words `a`, `b`, `c`, `d`.
pub open spec fn g(s: Seq<u32>, a: int, b: int, c: int, d: int, x: u32, y: u32) -> Seq<u32> {
    let a1 = add32(add32(s[a], s[b]), x);
    let d1 = rotr(s[d] ^ a1, 16);
    let c1 = add32(s[c], d1);
    let b1 = rotr(s[b] ^ c1, 12);
    let a2 = add32(add32(a1, b1), y);
    let d2 = rotr(d1 ^ a2, 8);
    let c2 = add32(c1, d2);
    let b2 = rotr(b1 ^ c2, 7);
    s.update(a, a2).update(b, b2).update(c, c2).update(d, d2)
}

/// One round: four column mixes, then four diagonal mixes.
pub open spec fn round(s: Seq<u32>, m: Seq<u32>) -> Seq<u32> {
    let s1 = g(s, 0, 4, 8, 12, m[0], m[1]);
    let s2 = g(s1, 1, 5, 9, 13, m[2], m[3]);
    let s3 = g(s2, 2, 6, 10, 14, m[4], m[5]);
    let s4 = g(s3, 3, 7, 11, 15, m[6], m[7]);
    let s5 = g(s4, 0, 5, 10, 15, m[8], m[9]);
    let s6 = g(s5, 1, 6, 11, 12, m[10], m[11]);
    let s7 = g(s6, 2, 7, 8, 13, m[12], m[13]);
    g(s7, 3, 4, 9, 14, m[14], m[15])
}

/// The message words reordered for the next round.
pub open spec fn permute(m: Seq<u32>) -> Seq<u32> {
    Seq::new(16, |i: int| m[msg_schedule()[i]])
}

/// The state after `n` rounds, the message being permuted between rounds.
pub open spec fn rounds(s: Seq<u32>, m: Seq<u32>, n: nat) -> Seq<u32>
    decreases n,
{
    if n == 0 {
        s
    } else {
        rounds(round(s, m), permute(m), (n - 1) as nat)
    }
}

/// The state that the rounds start from.
pub open spec fn initial_state(cv: Seq<u32>, counter: u64, block_len: u32, flags: u32) -> Seq<u32> {
    cv + seq![IV0, IV1, IV2, IV3, counter as u32, (counter >> 32) as u32, block_len, flags]
}

/// The sixteen output words of the compression function.
pub open spec fn compress_spec(
    cv: Seq<u32>,
    m: Seq<u32>,
    counter: u64,
    block_len: u32,
    flags: u32,
) -> Seq<u32> {
    let s = rounds(initial_state(cv, counter, block_len, flags), m, 7);
    Seq::new(
        16,
        |i: int|
            if i < 8 {
                s[i] ^ s[i + 8]
            } else {
                s[i] ^ cv[i - 8]
            },
    )
}

fn rotr_exec(x: u32, n: u32) -> (r: u32)
    requires
        0 < n < 32,
    ensures
        r == rotr(x, n),
{
    (x >> n) | (x << (32 - n))
}

fn g_exec(s: &mut Vec<u32>, a: usize, b: usize, c: usize, d: usize, x: u32, y: u32)
    requires
        old(s)@.len() == 16,
        a < 16,
        b < 16,
        c < 16,
        d < 16,
    ensures
        final(s)@ == g(old(s)@, a as int, b as int, c as int, d as int, x, y),
{
    let a1 = s[a].wrapping_add(s[b]).wrapping_add(x);
    let d1 = rotr_exec(s[d] ^ a1, 16);
    let c1 = s[c].wrapping_add(d1);
    let b1 = rotr_exec(s[b] ^ c1, 12);
    let a2 = a1.wrapping_add(b1).wrapping_add(y);
    let d2 = rotr_exec(d1 ^ a2, 8);
    let c2 = c1.wrapping_add(d2);
    let b2 = rotr_exec(b1 ^ c2, 7);
    s.set(a, a2);
    s.set(b, b2);
    s.set(c, c2);
    s.set(d, d2);
}

fn round_exec(s: &mut Vec<u32>, m: &Vec<u32>)
    requires
        old(s)@.len() == 16,
        m@.len() == 16,
    ensures
        final(s)@ == round(old(s)@, m@),
{
    g_exec(s, 0, 4, 8, 12, m[0], m[1]);
    g_exec(s, 1, 5, 9, 13, m[2], m[3]);
    g_exec(s, 2, 6, 10, 14, m[4], m[5]);
    g_exec(s, 3, 7, 11, 15, m[6], m[7]);
    g_exec(s, 0, 5, 10, 15, m[8], m[9]);
    g_exec(s, 1, 6, 11, 12, m[10], m[11]);
    g_exec(s, 2, 7, 8, 13, m[12], m[13]);
    g_exec(s, 3, 4, 9, 14, m[14], m[15]);
}

fn permute_exec(m: &Vec<u32>) -> (r: Vec<u32>)
    requires
        m@.len() == 16,
    ensures
        r@ == permute(m@),
{
    let schedule: [usize; 16] = [2, 6, 3, 10, 7, 0, 4, 13, 1, 11, 12, 5, 9, 14, 15, 8];
    let mut r: Vec<u32> = Vec::new();
    let mut i: usize = 0;
    while i < 16
        invariant
            i <= 16,
            m@.len() == 16,
            schedule@ == seq![2usize, 6, 3, 10, 7, 0, 4, 13, 1, 11, 12, 5, 9, 14, 15, 8],
            r@.len() == i,
            forall|j: int| 0 <= j < i ==> r@[j] == m@[msg_schedule()[j]],
        decreases 16 - i,
    {
        r.push(m[schedule[i]]);
        i = i + 1;
    }
    assert(r@ =~= permute(m@));
    r
}

/// Compresses one block of sixteen message words into sixteen output words.
pub fn compress(cv: &Vec<u32>, m: &Vec<u32>, counter: u64, block_len: u32, flags: u32) -> (r: Vec<
    u32,
>)
    requires
        cv@.len() == 8,
        m@.len() == 16,
    ensures
        r@ == compress_spec(cv@, m@, counter, block_len, flags),
{
    let mut s: Vec<u32> = Vec::new();
    let mut i: usize = 0;
    while i < 8
        invariant
            i <= 8,
            cv@.len() == 8,
            s@ == cv@.subrange(0, i as int),
        decreases 8 - i,
    {
        s.push(cv[i]);
        i = i + 1;
    }
    s.push(IV0);
    s.push(IV1);
    s.push(IV2);
    s.push(IV3);
    s.push(counter as u32);
    s.push((counter >> 32) as u32);
    s.push(block_len);
    s.push(flags);
    assert(s@ =~= initial_state(cv@, counter, block_len, flags));
    let mut msg: Vec<u32> = m.clone();
    assert(msg@ == m@);
    let mut n: usize = 0;
    while n < 7
        invariant
            n <= 7,
            s@.len() == 16,
            msg@.len() == 16,
            rounds(s@, msg@, (7 - n) as nat) == rounds(
                initial_state(cv@, counter, block_len, flags),
                m@,
                7,
            ),
        decreases 7 - n,
    {
        round_exec(&mut s, &msg);
        msg = permute_exec(&msg);
        n = n + 1;
    }
    let mut r: Vec<u32> = Vec::new();
    let mut j: usize = 0;
    while j < 16
        invariant
            j <= 16,
            s@.len() == 16,
            cv@.len() == 8,
            s@ == rounds(initial_state(cv@, counter, block_len, flags), m@, 7),
            r@.len() == j,
            forall|k: int|
                0 <= k < j ==> r@[k] == compress_spec(cv@, m@, counter, block_len, flags)[k],
        decreases 16 - j,
    {
        if j < 8 {
            r.push(s[j] ^ s[j + 8]);
        } else {
            r.push(s[j] ^ cv[j - 8]);
        }
        j = j + 1;
    }
    assert(r@ =~= compress_spec(cv@, m@, counter, block_len, flags));
    r
}


/// The little-endian word made of bytes `4 * i .. 4 * i + 4` of `b`.
pub open spec fn le_word(b: Seq<u8>, i: int) -> u32 {
    (b[4 * i] as int + b[4 * i + 1] as int * 0x100 + b[4 * i + 2] as int * 0x10000 + b[4 * i
        + 3] as int * 0x1000000) as u32
}

/// A byte string read as little-endian words.
pub open spec fn words_of(b: Seq<u8>) -> Seq<u32> {
    Seq::new(b.len() / 4, |i: int| le_word(b, i))
}

/// Byte `k` (from the least significant) of the word `w`.
pub open spec fn byte_of(w: u32, k: int) -> u8 {
    if k == 0 {
        (w % 0x100) as u8
    } else if k == 1 {
        ((w / 0x100) % 0x100) as u8
    } else if k == 2 {
        ((w / 0x10000) % 0x100) as u8
    } else {
        (w / 0x1000000) as u8
    }
}

/// Words written out as little-endian bytes.
pub open spec fn bytes_of(w: Seq<u32>) -> Seq<u8> {
    Seq::new(4 * w.len(), |j: int| byte_of(w[j / 4], j % 4))
}

/// Reads a byte string whose length is a multiple of four as little-endian words.
pub fn le_words(b: &[u8]) -> (r: Vec<u32>)
    requires
        b@.len() % 4 == 0,
    ensures
        r@ == words_of(b@),
{
    let len: usize = b.len();
    let n: usize = len / 4;
    let mut r: Vec<u32> = Vec::new();
    let mut i: usize = 0;
    while i < n
        invariant
            i <= n,
            len == b@.len(),
            n == b@.len() / 4,
            b@.len() % 4 == 0,
            r@.len() == i,
            forall|j: int| 0 <= j < i ==> r@[j] == le_word(b@, j),
        decreases n - i,
    {
        proof {
            assert(4 * i + 3 < b@.len()) by (nonlinear_arith)
                requires
                    i < n,
                    n == b@.len() / 4,
                    b@.len() % 4 == 0,
            ;
        }
        let w = b[4 * i] as u32 + (b[4 * i + 1] as u32) * 0x100 + (b[4 * i + 2] as u32) * 0x10000
            + (b[4 * i + 3] as u32) * 0x1000000;
        r.push(w);
        i = i + 1;
    }
    assert(r@ =~= words_of(b@));
    r
}

fn byte_of_exec(w: u32, k: usize) -> (r: u8)
    requires
        k < 4,
    ensures
        r == byte_of(w, k as int),
{
    if k == 0 {
        (w % 0x100) as u8
    } else if k == 1 {
        ((w / 0x100) % 0x100) as u8
    } else if k == 2 {
        ((w / 0x10000) % 0x100) as u8
    } else {
        (w / 0x1000000) as u8
    }
}

/// Writes the first eight words of `w` as thirty-two little-endian bytes.
pub fn le_bytes8(w: &Vec<u32>) -> (r: [u8; 32])
    requires
        w@.len() >= 8,
    ensures
        r@ == bytes_of(w@.take(8)),
{
    let mut r: [u8; 32] = [0u8; 32];
    let mut j: usize = 0;
    while j < 32
        invariant
            j <= 32,
            w@.len() >= 8,
            forall|i: int| 0 <= i < j ==> r@[i] == byte_of(w@[i / 4], i % 4),
        decreases 32 - j,
    {
        r[j] = byte_of_exec(w[j / 4], j % 4);
        j = j + 1;
    }
    assert(r@ =~= bytes_of(w@.take(8)));
    r
}


/// The first eight words of `w`: the chaining-value half of an output.
pub fn first8(w: &Vec<u32>) -> (r: Vec<u32>)
    requires
        w@.len() >= 8,
    ensures
        r@ == w@.take(8),
{
    let mut r: Vec<u32> = Vec::new();
    let mut i: usize = 0;
    while i < 8
        invariant
            i <= 8,
            w@.len() >= 8,
            r@ == w@.take(i as int),
        decreases 8 - i,
    {
        r.push(w[i]);
        i = i + 1;
        assert(r@ =~= w@.take(i as int));
    }
    r
}

/// The initial chaining value, as eight words.
pub fn iv_words() -> (r: Vec<u32>)
    ensures
        r@ == iv(),
{
    let r: Vec<u32> = vec![IV0, IV1, IV2, IV3, IV4, IV5, IV6, IV7];
    assert(r@ =~= iv());
    r
}

} // verus!
