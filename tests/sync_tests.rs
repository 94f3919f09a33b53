use libsync3::{
    apply_to_vec, delta, delta_with_chunk_size, signature, signature_with_chunk_size,
    suggest_chunk_size, Delta, DeltaOp, SyncError,
};

fn round_trip(original: &[u8], modified: &[u8], block_size: usize) -> (Vec<DeltaOp>, Vec<u8>) {
    let signatures = signature_with_chunk_size(original, block_size).unwrap();
    let d = delta_with_chunk_size(modified, &signatures, block_size).unwrap();
    let reconstructed = apply_to_vec(original, &d).unwrap();
    (d.ops, reconstructed)
}

#[test]
fn test_identical_data() {
    let data = b"Hello, world! This is some test data.";
    let sig = signature(data);
    let d = delta(data, &sig).unwrap();
    let result = apply_to_vec(data, &d).unwrap();
    assert_eq!(data.as_slice(), result.as_slice());
}

#[test]
fn test_small_change() {
    let original = b"AAAA BBBB CCCC DDDD EEEE";
    let modified = b"AAAA XXXX CCCC DDDD EEEE";

    let sig = signature_with_chunk_size(original, 5).unwrap();
    let d = delta(modified, &sig).unwrap();
    let result = apply_to_vec(original, &d).unwrap();

    assert_eq!(modified.as_slice(), result.as_slice());
}

#[test]
fn test_completely_different() {
    let original = b"Original content here";
    let modified = b"Completely different";

    let sig = signature(original);
    let d = delta(modified, &sig).unwrap();
    let result = apply_to_vec(original, &d).unwrap();

    assert_eq!(modified.as_slice(), result.as_slice());
}

#[test]
fn test_with_writer() {
    let original = b"Test data here";
    let modified = b"Test data modified";

    let sig = signature(original);
    let d = delta(modified, &sig).unwrap();

    let output = apply_to_vec(original, &d).unwrap();

    assert_eq!(modified.as_slice(), output.as_slice());
}

#[test]
fn test_basic_rsync() {
    let original = b"Hello, world! This is a test file for rsync.";
    let modified = b"Hello, world! This is a modified test file for rsync.";

    let signatures = signature(&original[..]);
    let d = delta(&modified[..], &signatures).unwrap();
    let reconstructed = apply_to_vec(original, &d).unwrap();

    assert_eq!(reconstructed, modified);
}

#[test]
fn test_handles_insertions() {
    let original = b"ABCDEFGHabcdefgh";
    let modified = b"ABCXYZDEFGHabcdefgh";

    let signatures = signature(&original[..]);
    let d = delta(&modified[..], &signatures).unwrap();
    let reconstructed = apply_to_vec(original, &d).unwrap();

    assert_eq!(reconstructed, modified);
}

#[test]
fn test_unchanged_data() {
    let data = b"Hello, world! This is a test file for rsync.";

    let signatures = signature(&data[..]);
    let d = delta(&data[..], &signatures).unwrap();
    let reconstructed = apply_to_vec(data, &d).unwrap();

    assert_eq!(reconstructed, data);
}

#[test]
fn test_completely_different_data() {
    let original = b"Hello, world!";
    let modified = b"Goodbye, world!";

    let signatures = signature(&original[..]);
    let d = delta(&modified[..], &signatures).unwrap();
    let reconstructed = apply_to_vec(original, &d).unwrap();

    assert_eq!(reconstructed, modified);
}

#[test]
fn test_1mb_with_prepended_byte_rolling_checksum() {
    const ONE_MB: usize = 1024 * 1024;
    let block_size = 4096;

    let mut original: Vec<u8> = vec![0u8; ONE_MB];
    for (i, byte) in original.iter_mut().enumerate() {
        *byte = (i % 256) as u8;
    }

    let mut modified = Vec::with_capacity(ONE_MB + 1);
    modified.push(0xFF);
    modified.extend_from_slice(&original);

    let signatures = signature_with_chunk_size(&original[..], block_size).unwrap();
    let d = delta_with_chunk_size(&modified[..], &signatures, block_size).unwrap();

    let data_commands: Vec<_> = d
        .ops
        .iter()
        .filter(|cmd| matches!(cmd, DeltaOp::Insert(_)))
        .collect();
    let copy_commands: Vec<_> = d
        .ops
        .iter()
        .filter(|cmd| matches!(cmd, DeltaOp::Copy { .. }))
        .collect();

    assert_eq!(
        data_commands.len(),
        1,
        "Expected exactly 1 Insert command for the prepended byte, got {}",
        data_commands.len()
    );

    assert!(
        copy_commands.len() >= 1,
        "Expected at least 1 Copy command, got {}",
        copy_commands.len()
    );

    let total_copy_length: usize = copy_commands
        .iter()
        .map(|cmd| {
            if let DeltaOp::Copy { length, .. } = cmd {
                *length
            } else {
                0
            }
        })
        .sum();
    assert_eq!(
        total_copy_length, ONE_MB,
        "Total Copy length should equal original data size"
    );

    if let DeltaOp::Insert(data) = &data_commands[0] {
        assert_eq!(data.len(), 1, "Insert command should contain only 1 byte");
        assert_eq!(data[0], 0xFF, "Insert byte should be 0xFF");
    }

    let reconstructed = apply_to_vec(&original, &d).unwrap();

    assert_eq!(
        reconstructed, modified,
        "Reconstructed data should match modified"
    );
}

#[test]
fn test_empty_input() {
    let original = b"some data";
    let modified: &[u8] = b"";

    let signatures = signature(&original[..]);
    let d = delta(modified, &signatures).unwrap();

    assert!(d.ops.is_empty(), "Delta for empty input should be empty");

    let reconstructed = apply_to_vec(original, &d).unwrap();

    assert_eq!(reconstructed, modified);
}

#[test]
fn test_empty_original() {
    let original: &[u8] = b"";
    let modified = b"new data";

    let signatures = signature(original);
    let d = delta(&modified[..], &signatures).unwrap();

    assert_eq!(d.ops.len(), 1, "Should have exactly 1 Insert command");
    assert!(matches!(&d.ops[0], DeltaOp::Insert(data) if data == modified));

    let reconstructed = apply_to_vec(original, &d).unwrap();

    assert_eq!(reconstructed, modified);
}

#[test]
fn test_data_smaller_than_block_size() {
    let block_size = 1024;

    let original = b"small";
    let modified = b"small";

    let (ops, reconstructed) = round_trip(original, modified, block_size);
    assert_eq!(ops, vec![DeltaOp::Copy { offset: 0, length: 5 }]);
    assert_eq!(reconstructed, modified);
}

#[test]
fn test_append_data() {
    let block_size = 16;

    let original = b"0123456789ABCDEF";
    let mut modified = original.to_vec();
    modified.extend_from_slice(b"GHIJKLMN");

    let (ops, reconstructed) = round_trip(original, &modified, block_size);

    assert_eq!(ops.len(), 2, "Should have Copy + Insert commands");
    assert!(matches!(&ops[0], DeltaOp::Copy { .. }));
    assert!(matches!(&ops[1], DeltaOp::Insert(d) if d == b"GHIJKLMN"));
    assert_eq!(reconstructed, modified);
}

#[test]
fn test_prepend_data() {
    let block_size = 16;

    let original = b"0123456789ABCDEF";
    let mut modified = b"PREFIX__".to_vec();
    modified.extend_from_slice(original);

    let (ops, reconstructed) = round_trip(original, &modified, block_size);

    assert_eq!(ops.len(), 2, "Should have Insert + Copy commands");
    assert!(matches!(&ops[0], DeltaOp::Insert(d) if d == b"PREFIX__"));
    assert!(matches!(&ops[1], DeltaOp::Copy { .. }));
    assert_eq!(reconstructed, modified);
}

#[test]
fn test_insert_in_middle() {
    let (_, reconstructed) = round_trip(b"AAAAAAAABBBBBBBB", b"AAAAAAAAXXXXBBBBBBBB", 8);
    assert_eq!(reconstructed, b"AAAAAAAAXXXXBBBBBBBB");
}

#[test]
fn test_delete_from_middle() {
    let (_, reconstructed) = round_trip(b"AAAAAAAAXXXXXXXXBBBBBBBB", b"AAAAAAAABBBBBBBB", 8);
    assert_eq!(reconstructed, b"AAAAAAAABBBBBBBB");
}

#[test]
fn test_block_reordering() {
    let (_, reconstructed) = round_trip(
        b"AAAAAAAABBBBBBBBCCCCCCCC",
        b"CCCCCCCCAAAAAAAABBBBBBBB",
        8,
    );
    assert_eq!(reconstructed, b"CCCCCCCCAAAAAAAABBBBBBBB");
}

#[test]
fn test_duplicate_blocks() {
    let (_, reconstructed) = round_trip(
        b"AAAAAAAABBBBBBBB",
        b"AAAAAAAAAAAAAAAABBBBBBBBBBBBBBBB",
        8,
    );
    assert_eq!(reconstructed, b"AAAAAAAAAAAAAAAABBBBBBBBBBBBBBBB");
}

#[test]
fn test_adjacent_copy_compression() {
    let block_size = 8;

    let original = b"AAAAAAAABBBBBBBBCCCCCCCCDDDDDDDD";
    let modified = original;

    let (ops, reconstructed) = round_trip(original, modified, block_size);

    assert_eq!(
        ops.len(),
        1,
        "Adjacent blocks should be compressed into single Copy command"
    );

    if let DeltaOp::Copy { offset, length } = &ops[0] {
        assert_eq!(*offset, 0);
        assert_eq!(*length, 32);
    } else {
        panic!("Expected Copy command");
    }

    assert_eq!(reconstructed, modified);
}

#[test]
fn test_non_adjacent_blocks_not_compressed() {
    let (ops, reconstructed) =
        round_trip(b"AAAAAAAABBBBBBBBCCCCCCCC", b"AAAAAAAACCCCCCCC", 8);

    assert_eq!(
        ops.len(),
        2,
        "Non-adjacent blocks should remain separate Copy commands"
    );
    assert_eq!(reconstructed, b"AAAAAAAACCCCCCCC");
}

#[test]
fn test_large_random_modifications() {
    let block_size = 64;

    let mut original = vec![0u8; 10000];
    let mut seed: u64 = 0x1234_5678;
    for byte in &mut original {
        seed = seed.wrapping_mul(6_364_136_223_846_793_005).wrapping_add(1);
        *byte = (seed >> 56) as u8;
    }

    let mut modified = original.clone();
    modified[500..600].fill(0xFF);
    modified.splice(2000..2000, vec![0xAA; 100]);
    modified.drain(5000..5050);

    let (_, reconstructed) = round_trip(&original, &modified, block_size);
    assert_eq!(reconstructed, modified);
}

#[test]
fn test_single_byte_changes() {
    let block_size = 16;

    let original: Vec<u8> = (0..64).collect();
    let mut modified = original.clone();
    modified[0] = 255;
    modified[16] = 255;
    modified[32] = 255;
    modified[48] = 255;

    let (_, reconstructed) = round_trip(&original, &modified, block_size);
    assert_eq!(reconstructed, modified);
}

#[test]
fn test_exact_block_boundary() {
    let block_size = 16;

    let original: Vec<u8> = (0..48).collect();
    let modified = original.clone();

    let (ops, reconstructed) = round_trip(&original, &modified, block_size);

    assert_eq!(ops.len(), 1, "Should be single compressed Copy");

    if let DeltaOp::Copy { offset, length } = &ops[0] {
        assert_eq!(*offset, 0);
        assert_eq!(*length, 48);
    } else {
        panic!("Expected Copy command");
    }

    assert_eq!(reconstructed, modified);
}

#[test]
fn test_partial_last_block() {
    let original: Vec<u8> = (0..50).collect();
    let modified = original.clone();

    let (ops, reconstructed) = round_trip(&original, &modified, 16);
    assert_eq!(ops, vec![DeltaOp::Copy { offset: 0, length: 50 }]);
    assert_eq!(reconstructed, modified);
}

#[test]
fn test_entire_block_removed() {
    let block_size = 16;

    let original: Vec<u8> = (0..200).collect();
    let mut modified = original.clone();
    modified.drain(block_size * 4..block_size * 5);

    let (ops, reconstructed) = round_trip(&original, &modified, block_size);

    assert_eq!(ops.len(), 2);
    assert!(
        matches!(&ops[0], DeltaOp::Copy { offset, length } if *offset == 0 && *length == block_size * 4)
    );
    assert!(
        matches!(&ops[1], DeltaOp::Copy { offset, length } if *offset == 80 && *length == 120)
    );
    assert_eq!(reconstructed, modified);
}

#[test]
fn short_target_against_longer_base_is_one_insert() {
    let (ops, reconstructed) = round_trip(b"0123456789ABCDEF", b"small", 1024);
    assert_eq!(ops, vec![DeltaOp::Insert(b"small".to_vec())]);
    assert_eq!(reconstructed, b"small");
}

#[test]
fn empty_target_gives_empty_delta_for_any_base() {
    for base in [&b"x"[..], &b"some longer base text"[..]] {
        let sig = signature_with_chunk_size(base, 4).unwrap();
        let d = delta(b"", &sig).unwrap();
        assert!(d.ops.is_empty());
        assert_eq!(d.final_size, 0);
    }
}

#[test]
fn insert_between_copies_is_not_coalesced() {
    let base = b"AAAAAAAABBBBBBBB";
    let target = b"AAAAAAAAxBBBBBBBB";
    let (ops, reconstructed) = round_trip(base, target, 8);
    assert_eq!(
        ops,
        vec![
            DeltaOp::Copy { offset: 0, length: 8 },
            DeltaOp::Insert(b"x".to_vec()),
            DeltaOp::Copy { offset: 8, length: 8 },
        ]
    );
    assert_eq!(reconstructed, target);
}

fn assert_coalesced(ops: &[DeltaOp]) {
    for pair in ops.windows(2) {
        match (&pair[0], &pair[1]) {
            (DeltaOp::Insert(_), DeltaOp::Insert(_)) => panic!("two inserts in a row"),
            (
                DeltaOp::Copy { offset: o1, length: l1 },
                DeltaOp::Copy { offset: o2, .. },
            ) => assert_ne!(o1 + l1, *o2, "adjacent copies"),
            _ => {}
        }
    }
    for op in ops {
        match op {
            DeltaOp::Insert(data) => assert!(!data.is_empty()),
            DeltaOp::Copy { length, .. } => assert!(*length > 0),
        }
    }
}

#[test]
fn deltas_are_coalesced() {
    let mut seed: u64 = 7;
    let base: Vec<u8> = (0..5000)
        .map(|_| {
            seed = seed.wrapping_mul(6_364_136_223_846_793_005).wrapping_add(1);
            (seed >> 60) as u8
        })
        .collect();
    let mut target = base.clone();
    target[100] ^= 1;
    target.splice(1000..1000, vec![1, 2, 3]);
    target.drain(3000..3100);
    target.extend_from_slice(&base[0..700]);
    let (ops, reconstructed) = round_trip(&base, &target, 32);
    assert_coalesced(&ops);
    assert_eq!(reconstructed, target);
}

#[test]
fn few_single_byte_edits_give_a_smaller_delta() {
    let base: Vec<u8> = (0..4096u32).map(|i| (i * 31 % 251) as u8).collect();
    let mut target = base.clone();
    target[10] ^= 0xFF;
    target[2000] ^= 0xFF;
    let (ops, reconstructed) = round_trip(&base, &target, 64);
    assert_eq!(reconstructed, target);
    let literal: usize = ops
        .iter()
        .map(|op| match op {
            DeltaOp::Insert(data) => data.len(),
            DeltaOp::Copy { .. } => 0,
        })
        .sum();
    assert!(literal < target.len());
    assert!(ops.iter().any(|op| matches!(op, DeltaOp::Copy { .. })));
}

#[test]
fn zero_block_size_is_rejected() {
    assert_eq!(
        signature_with_chunk_size(b"abc", 0).unwrap_err(),
        SyncError::InvalidChunkSize
    );
    let sig = signature_with_chunk_size(b"abc", 2).unwrap();
    assert_eq!(
        delta_with_chunk_size(b"abc", &sig, 0).unwrap_err(),
        SyncError::InvalidChunkSize
    );
}

#[test]
fn mismatched_block_size_is_rejected() {
    let sig = signature_with_chunk_size(b"abcdef", 4).unwrap();
    assert_eq!(
        delta_with_chunk_size(b"abcdef", &sig, 8).unwrap_err(),
        SyncError::ChunkSizeMismatch { expected: 4, found: 8 }
    );
}

#[test]
fn copy_past_end_of_base_is_rejected() {
    let d = Delta {
        chunk_size: 4,
        ops: vec![
            DeltaOp::Insert(b"ab".to_vec()),
            DeltaOp::Copy { offset: 2, length: 3 },
        ],
        final_size: 5,
    };
    assert_eq!(
        apply_to_vec(b"abcd", &d).unwrap_err(),
        SyncError::CopyOutOfRange { offset: 2, length: 3, base_len: 4 }
    );
}

#[test]
fn apply_writes_inserts_and_copies_in_order() {
    let d = Delta {
        chunk_size: 4,
        ops: vec![
            DeltaOp::Copy { offset: 4, length: 2 },
            DeltaOp::Insert(b"--".to_vec()),
            DeltaOp::Copy { offset: 0, length: 3 },
        ],
        final_size: 7,
    };
    assert_eq!(apply_to_vec(b"abcdefgh", &d).unwrap(), b"ef--abc".to_vec());
}

#[test]
fn signature_buckets_hold_blocks_by_weak_checksum() {
    let base = b"AAAAAAAABBBBBBBBAAAAAAAAC";
    let sig = signature_with_chunk_size(base, 8).unwrap();
    assert_eq!(sig.chunk_size, 8);
    let weak_a = libsync3::RollingChecksum::compute(b"AAAAAAAA");
    let bucket = &sig.buckets[&weak_a];
    let indices: Vec<usize> = bucket.iter().map(|e| e.index).collect();
    assert_eq!(indices, vec![0, 2]);
    assert_eq!(bucket[0].hash, xxhash_rust::xxh3::xxh3_128(b"AAAAAAAA"));
    let weak_c = libsync3::RollingChecksum::compute(b"C");
    assert_eq!(sig.buckets[&weak_c][0].index, 3);
    assert_eq!(sig.buckets.len(), 3);
}

#[test]
fn empty_base_has_no_buckets() {
    let sig = signature(b"");
    assert!(sig.buckets.is_empty());
    assert_eq!(sig.chunk_size, 4096);
}

#[test]
fn suggested_block_sizes() {
    assert_eq!(suggest_chunk_size(0), 512);
    assert_eq!(suggest_chunk_size(65_536), 512);
    assert_eq!(suggest_chunk_size(65_537), 4096);
    assert_eq!(suggest_chunk_size(1_048_576), 4096);
    assert_eq!(suggest_chunk_size(1_048_577), 8192);
    assert_eq!(suggest_chunk_size(104_857_600), 8192);
    assert_eq!(suggest_chunk_size(104_857_601), 16384);
}

fn pseudo_random(len: usize, mut seed: u64) -> Vec<u8> {
    (0..len)
        .map(|_| {
            seed = seed.wrapping_mul(6_364_136_223_846_793_005).wrapping_add(1);
            (seed >> 56) as u8
        })
        .collect()
}

#[test]
fn builder_fed_in_pieces_matches_whole_delta() {
    let base = pseudo_random(3000, 11);
    let mut target = base.clone();
    target[700] ^= 0x55;
    target.splice(1500..1500, vec![9; 37]);
    target.drain(2200..2260);
    let sig = signature_with_chunk_size(&base, 64).unwrap();
    let whole = delta(&target, &sig).unwrap();
    for piece in [1usize, 7, 64, 100, 5000] {
        let mut builder = libsync3::DeltaBuilder::new(&sig).unwrap();
        let mut ops = Vec::new();
        for chunk in target.chunks(piece) {
            ops.extend(builder.feed(chunk));
        }
        ops.extend(builder.finish());
        assert_eq!(ops, whole.ops, "pieces of {piece} bytes");
    }
    assert_eq!(apply_to_vec(&base, &whole).unwrap(), target);
}

#[test]
fn builder_hands_out_finished_commands_early() {
    let base = b"AAAAAAAABBBBBBBBCCCCCCCC";
    let sig = signature_with_chunk_size(base, 8).unwrap();
    let mut builder = libsync3::DeltaBuilder::new(&sig).unwrap();
    assert!(builder.feed(b"AAAAAAAAxx").is_empty());
    let ready = builder.feed(b"CCCCCCCC");
    assert_eq!(
        ready,
        vec![
            DeltaOp::Copy { offset: 0, length: 8 },
            DeltaOp::Insert(b"xx".to_vec()),
        ]
    );
    let rest = builder.finish();
    assert_eq!(rest, vec![DeltaOp::Copy { offset: 16, length: 8 }]);
}

#[test]
fn builder_rejects_zero_block_size() {
    let sig = libsync3::Signature { chunk_size: 0, buckets: std::collections::HashMap::new() };
    assert!(matches!(
        libsync3::DeltaBuilder::new(&sig),
        Err(SyncError::InvalidChunkSize)
    ));
    assert_eq!(delta(b"abc", &sig).unwrap_err(), SyncError::InvalidChunkSize);
}

#[test]
fn delta_of_base_against_itself_has_no_insert() {
    for (len, block) in [(1usize, 4usize), (100, 7), (4096, 64), (5000, 512)] {
        let base = pseudo_random(len, len as u64);
        let sig = signature_with_chunk_size(&base, block).unwrap();
        let d = delta(&base, &sig).unwrap();
        assert!(d.ops.iter().all(|op| matches!(op, DeltaOp::Copy { .. })));
        assert_eq!(apply_to_vec(&base, &d).unwrap(), base);
    }
}
