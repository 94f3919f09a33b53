use libsync3::{
    hash64, lightweight_delta, lightweight_signature_with_chunk_size, apply_to_vec, BuzHash,
    DeltaOp, LightweightHash, SyncError,
};

#[test]
fn test_buzhash_basic() {
    let mut buzhash = BuzHash::new(4);

    assert_eq!(buzhash.hash(), 0);

    buzhash.update(b'A');
    buzhash.update(b'B');
    buzhash.update(b'C');
    buzhash.update(b'D');

    assert_ne!(buzhash.hash(), 0);
}

#[test]
fn test_buzhash_rolling() {
    let mut buzhash = BuzHash::new(3);

    buzhash.update(b'A');
    buzhash.update(b'B');
    buzhash.update(b'C');
    let hash1 = buzhash.hash();

    buzhash.update(b'D');
    let hash2 = buzhash.hash();

    assert_ne!(hash1, hash2);
}

#[test]
fn test_hash_slice() {
    let data1 = b"Hello";
    let data2 = b"World";
    let data3 = b"Hello";

    let hash1 = BuzHash::hash_slice(data1);
    let hash2 = BuzHash::hash_slice(data2);
    let hash3 = BuzHash::hash_slice(data3);

    assert_eq!(hash1, hash3);
    assert_ne!(hash1, hash2);
}

#[test]
fn test_hash64_convenience() {
    let data = b"test data";
    let hash1 = hash64(data);
    let hash2 = BuzHash::hash_slice(data);

    assert_eq!(hash1, hash2);
}

#[test]
fn test_reset() {
    let mut buzhash = BuzHash::new(4);

    buzhash.update(b'A');
    buzhash.update(b'B');
    assert_ne!(buzhash.hash(), 0);

    buzhash.reset();
    assert_eq!(buzhash.hash(), 0);
    assert!(!buzhash.window_full());
    assert_eq!(buzhash.pos(), 0);
}

#[test]
fn test_buzhash_empty_data() {
    let buzhash = BuzHash::new(4);
    assert_eq!(buzhash.hash(), 0);
}

#[test]
fn test_hash64_empty() {
    let hash = hash64(b"");
    assert_eq!(hash, 0);
}

#[test]
fn test_buzhash_window_wraparound() {
    let mut buzhash = BuzHash::new(3);

    buzhash.update(b'A');
    buzhash.update(b'B');
    buzhash.update(b'C');
    let hash_full = buzhash.hash();

    buzhash.update(b'D');
    let hash_wrapped = buzhash.hash();

    assert_ne!(hash_full, hash_wrapped);
}

fn map_byte(byte: u8) -> u64 {
    let mut x = u64::from(byte) ^ 0x9E37_79B9_7F4A_7C15;
    x = (x ^ (x >> 30)).wrapping_mul(0xbf58_476d_1ce4_e5b9);
    x = (x ^ (x >> 27)).wrapping_mul(0x94d0_49bb_1331_11eb);
    x ^ (x >> 31)
}

#[test]
fn buzhash_single_byte_is_its_word() {
    assert_eq!(hash64(b"A"), map_byte(b'A'));
    let mut buzhash = BuzHash::new(8);
    buzhash.update(b'A');
    assert_eq!(buzhash.hash(), map_byte(b'A'));
}

#[test]
fn buzhash_two_bytes_rotate_then_mix() {
    let expected = map_byte(b'A').rotate_left(1) ^ map_byte(b'B');
    assert_eq!(hash64(b"AB"), expected);
}

#[test]
fn buzhash_rolling_equals_hash_of_window() {
    let data = b"the quick brown fox jumps over the lazy dog";
    let window = 5;
    let mut buzhash = BuzHash::new(window);
    for (i, &byte) in data.iter().enumerate() {
        buzhash.update(byte);
        let start = if i + 1 >= window { i + 1 - window } else { 0 };
        assert_eq!(buzhash.hash(), hash64(&data[start..=i]));
    }
}

#[test]
fn buzhash_wide_window_matches_hash64() {
    let data: Vec<u8> = (0..100u8).collect();
    let mut buzhash = BuzHash::new(128);
    for &byte in &data {
        buzhash.update(byte);
    }
    assert_eq!(buzhash.hash(), hash64(&data));
}

#[test]
fn lightweight_hash_round_trips_through_u64() {
    let hash = LightweightHash::new(b"test data");
    assert_eq!(hash.as_u64(), hash64(b"test data"));
    let word: u64 = hash.into();
    assert_eq!(LightweightHash::from(word), hash);
}

#[test]
fn lightweight_signature_has_one_entry_per_block() {
    let base: Vec<u8> = (0..50u8).collect();
    let sig = lightweight_signature_with_chunk_size(&base, 16).unwrap();
    assert_eq!(sig.chunk_size, 16);
    assert_eq!(sig.chunks.len(), 4);
    for (i, chunk) in sig.chunks.iter().enumerate() {
        assert_eq!(chunk.index, i);
        let end = ((i + 1) * 16).min(50);
        assert_eq!(chunk.hash.as_u64(), hash64(&base[i * 16..end]));
    }
}

#[test]
fn lightweight_signature_rejects_zero_block_size() {
    assert_eq!(
        lightweight_signature_with_chunk_size(b"abc", 0).unwrap_err(),
        SyncError::InvalidChunkSize
    );
}

#[test]
fn lightweight_delta_copies_aligned_blocks() {
    let base = b"AAAAAAAABBBBBBBBCCCCCCCC";
    let target = b"AAAAAAAAXXXXXXXXCCCCCCCC";
    let sig = lightweight_signature_with_chunk_size(base, 8).unwrap();
    let d = lightweight_delta(target, &sig).unwrap();
    assert_eq!(
        d.ops,
        vec![
            DeltaOp::Copy { offset: 0, length: 8 },
            DeltaOp::Insert(b"XXXXXXXX".to_vec()),
            DeltaOp::Copy { offset: 16, length: 8 },
        ]
    );
    assert_eq!(d.final_size, 24);
    assert_eq!(apply_to_vec(base, &d).unwrap(), target.to_vec());
}

#[test]
fn lightweight_delta_does_not_find_shifted_blocks() {
    let base = b"AAAAAAAABBBBBBBB";
    let target = b"xAAAAAAAABBBBBBBB";
    let sig = lightweight_signature_with_chunk_size(base, 8).unwrap();
    let d = lightweight_delta(target, &sig).unwrap();
    assert_eq!(d.ops, vec![DeltaOp::Insert(target.to_vec())]);
    assert_eq!(apply_to_vec(base, &d).unwrap(), target.to_vec());
}
