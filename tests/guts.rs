use blake3::chunk::{ChunkState, TreeError};
use blake3::compress::CHUNK_LEN;
use blake3::message::{hash, Hasher};
use blake3::output;
use blake3::subtree::{hash_subtree, hash_subtree_rayon, is_subtree, parent_cv};

fn to_hex(h: &output::Hash) -> String {
    h.as_bytes().iter().map(|b| format!("{:02x}", b)).collect()
}

fn chunk_hash_of(counter: u64, data: &[u8], is_root: bool) -> output::Hash {
    let mut state = ChunkState::new(counter);
    state.update(data).unwrap();
    state.finalize(is_root)
}

/// A recursive form of `hash_subtree`, written independently of it.
fn recursive_hash_subtree(start_chunk: u64, data: &[u8], is_root: bool) -> output::Hash {
    if data.len() <= CHUNK_LEN {
        chunk_hash_of(start_chunk, data, is_root)
    } else {
        let chunks = data.len() / CHUNK_LEN + (data.len() % CHUNK_LEN != 0) as usize;
        let chunks = chunks.next_power_of_two();
        let mid = chunks / 2;
        let mid_bytes = mid * CHUNK_LEN;
        let left = recursive_hash_subtree(start_chunk, &data[..mid_bytes], false);
        let right = recursive_hash_subtree(start_chunk + mid as u64, &data[mid_bytes..], false);
        parent_cv(&left, &right, is_root)
    }
}

fn counting_bytes(n: usize) -> Vec<u8> {
    (0..n).map(|i| i as u8).collect()
}

#[test]
fn test_chunk() {
    let mut state = ChunkState::new(0);
    state.update(b"foo").unwrap();
    assert_eq!(hash(b"foo"), state.finalize(true));
}

#[test]
fn test_parents() {
    let mut hasher = Hasher::new();
    let mut buf = [0; CHUNK_LEN];

    buf[0] = 'a' as u8;
    hasher.update(&buf);
    let chunk0_cv = chunk_hash_of(0, &buf, false);

    buf[0] = 'b' as u8;
    hasher.update(&buf);
    let chunk1_cv = chunk_hash_of(1, &buf, false);

    hasher.update(b"c");
    let chunk2_cv = chunk_hash_of(2, b"c", false);

    let parent = parent_cv(&chunk0_cv, &chunk1_cv, false);
    let root = parent_cv(&parent, &chunk2_cv, true);
    assert_eq!(hasher.finalize(), root);
}

#[test]
fn test_hash_subtree() {
    assert_eq!(hash(b"foo"), hash_subtree(0, b"foo", true).unwrap());

    assert_eq!(is_subtree(4, 1024 * 4 - 1), true);
    assert_eq!(is_subtree(1, 1024 * 4), false);

    let data = (0..1024 << 4).map(|i| i as u8).collect::<Vec<_>>();
    for block_log in 0..4 {
        let block_size = 1usize << block_log;
        let block_size_u64 = block_size as u64;
        for i in 0..100 {
            let start_chunk = i * block_size_u64;
            assert_eq!(
                recursive_hash_subtree(start_chunk, &data[..CHUNK_LEN], false),
                hash_subtree(start_chunk, &data[..CHUNK_LEN], false).unwrap()
            );
            assert_eq!(
                recursive_hash_subtree(start_chunk, &data[..block_size * CHUNK_LEN], false),
                hash_subtree(start_chunk, &data[..block_size * CHUNK_LEN], false).unwrap()
            );
        }
    }
}

#[test]
fn known_hash_of_empty_input() {
    assert_eq!(
        to_hex(&hash(b"")),
        "af1349b9f5f9a1a6a0404dea36dcc9499bcb25c9adc112b7cc9a93cae41f3262"
    );
}

#[test]
fn known_hash_of_abc() {
    assert_eq!(
        to_hex(&hash(b"abc")),
        "6437b3ac38465133ffb63b75273a8db548c558465d79db03fd359c6cd5bd9d85"
    );
}

#[test]
fn subtree_root_matches_incremental_hash() {
    for &len in &[0usize, 1, 63, 64, 65, 1023, 1024, 1025, 2048, 2049, 3072, 3073, 4096, 5000, 9217] {
        let data = counting_bytes(len);
        let mut hasher = Hasher::new();
        let (a, b) = data.split_at(len / 3);
        hasher.update(a);
        hasher.update(b);
        assert_eq!(hash_subtree(0, &data, true).unwrap(), hasher.finalize(), "len {}", len);
        assert_eq!(hash(&data), hasher.finalize(), "len {}", len);
    }
}

#[test]
fn subtree_agrees_with_recursive_reference_at_odd_lengths() {
    let data = counting_bytes(8 * CHUNK_LEN);
    for &len in &[1usize, 1000, 1025, 2500, 3073, 5000, 8 * CHUNK_LEN] {
        let chunks = (len + CHUNK_LEN - 1) / CHUNK_LEN;
        let step = chunks.next_power_of_two() as u64;
        for k in 0..3u64 {
            let start = k * step;
            assert_eq!(
                hash_subtree(start, &data[..len], false).unwrap(),
                recursive_hash_subtree(start, &data[..len], false)
            );
        }
    }
}

#[test]
fn alignment_oracle_cases() {
    assert!(is_subtree(0, 0));
    assert!(is_subtree(7, 0));
    assert!(is_subtree(3, 1024));
    assert!(is_subtree(2, 2048));
    assert!(!is_subtree(1, 2048));
    assert!(!is_subtree(2, 2049));
    assert!(is_subtree(4, 2049));
    assert!(is_subtree(u64::MAX, 1));
    assert!(!is_subtree(u64::MAX, 1025));
    assert!(is_subtree(0, u64::MAX));
    assert!(!is_subtree(1 << 53, u64::MAX));
}

#[test]
fn invalid_subtree_range_is_rejected() {
    let data = counting_bytes(4 * CHUNK_LEN);
    assert_eq!(hash_subtree(1, &data, false), Err(TreeError::InvalidSubtreeRange));
    assert_eq!(hash_subtree(2, &data[..3000], false), Err(TreeError::InvalidSubtreeRange));
    assert_eq!(hash_subtree_rayon(6, &data, false), Err(TreeError::InvalidSubtreeRange));
}

#[test]
fn root_of_nonzero_start_is_rejected() {
    let data = counting_bytes(CHUNK_LEN);
    assert_eq!(hash_subtree(1, &data, true), Err(TreeError::InvalidSubtreeRange));
    assert!(hash_subtree(1, &data, false).is_ok());
}

#[test]
fn chunk_overflow_is_rejected() {
    let mut state = ChunkState::new(0);
    state.update(&counting_bytes(1000)).unwrap();
    assert_eq!(state.update(&counting_bytes(25)), Err(TreeError::ChunkOverflow));
    assert_eq!(state.len(), 1000);
    state.update(&counting_bytes(24)).unwrap();
    assert_eq!(state.len(), CHUNK_LEN);
    assert_eq!(state.update(b"x"), Err(TreeError::ChunkOverflow));
    assert_eq!(state.len(), CHUNK_LEN);
    let mut whole = ChunkState::new(0);
    assert_eq!(whole.update(&counting_bytes(CHUNK_LEN + 1)), Err(TreeError::ChunkOverflow));
    assert_eq!(whole.len(), 0);
}

#[test]
fn chunk_update_in_pieces_matches_one_update() {
    let data = counting_bytes(CHUNK_LEN);
    let whole = chunk_hash_of(5, &data, false);
    let mut pieces = ChunkState::new(5);
    pieces.update(&data[..1]).unwrap();
    pieces.update(&data[1..64]).unwrap();
    pieces.update(&data[64..200]).unwrap();
    pieces.update(&data[200..]).unwrap();
    assert_eq!(pieces.len(), CHUNK_LEN);
    assert_eq!(pieces.finalize(false), whole);
}

#[test]
fn chunk_finalize_is_repeatable_and_flag_sensitive() {
    let mut state = ChunkState::new(0);
    state.update(b"hello").unwrap();
    let cv = state.finalize(false);
    let root = state.finalize(true);
    assert_eq!(state.finalize(false), cv);
    assert_eq!(state.finalize(true), root);
    assert_ne!(cv, root);
    assert_eq!(state.len(), 5);
}

#[test]
fn chunk_counter_changes_chaining_value() {
    assert_ne!(chunk_hash_of(0, b"foo", false), chunk_hash_of(1, b"foo", false));
}

#[test]
fn parent_cv_is_not_commutative() {
    let left = chunk_hash_of(0, b"left", false);
    let right = chunk_hash_of(1, b"right", false);
    assert_ne!(parent_cv(&left, &right, false), parent_cv(&right, &left, false));
    assert_ne!(parent_cv(&left, &right, true), parent_cv(&right, &left, true));
    assert_ne!(parent_cv(&left, &right, false), parent_cv(&left, &right, true));
}

#[test]
fn pure_functions_are_deterministic() {
    let left = chunk_hash_of(0, b"a", false);
    let right = chunk_hash_of(1, b"b", false);
    assert_eq!(parent_cv(&left, &right, false), parent_cv(&left, &right, false));
    assert_eq!(is_subtree(8, 4096), is_subtree(8, 4096));
    assert_eq!(is_subtree(6, 4096), is_subtree(6, 4096));
}

#[test]
fn rayon_variant_matches_sequential() {
    let data = counting_bytes(5 * CHUNK_LEN + 17);
    assert_eq!(hash_subtree_rayon(0, &data, true), hash_subtree(0, &data, true));
    assert_eq!(hash_subtree_rayon(8, &data, false), hash_subtree(8, &data, false));
}

#[test]
fn three_chunk_tree_by_subtrees() {
    let data = counting_bytes(3 * CHUNK_LEN);
    let left = hash_subtree(0, &data[..2 * CHUNK_LEN], false).unwrap();
    let right = hash_subtree(2, &data[2 * CHUNK_LEN..], false).unwrap();
    assert_eq!(parent_cv(&left, &right, true), hash(&data));
}

#[test]
fn hash_bytes_round_trip() {
    let h = hash(b"round trip");
    let copy = output::Hash::from_bytes(*h.as_bytes());
    assert_eq!(copy, h);
}
