use std::sync::Arc;

use mini_lsm_starter::block::{Block, BlockBuilder, BlockDecodeError, BlockIterator};

fn build(entries: &[(&[u8], &[u8])], block_size: usize) -> Block {
    let mut builder = BlockBuilder::new(block_size);
    for (k, v) in entries {
        assert!(builder.add(k, v));
    }
    builder.build()
}

#[test]
fn probe_scratch_prefix_size() {
    let mut builder = BlockBuilder::new(65536);
    let n = 100;
    for i in 0..n {
        let key = format!("common_shared_prefix_key_that_is_long_{:05}", i);
        let value = format!("value_{:05}", i);
        assert!(builder.add(key.as_bytes(), value.as_bytes()));
    }
    let block = builder.build();
    let encoded_len = block.encode().len();

    let mut naive = 2;
    for i in 0..n {
        let key = format!("common_shared_prefix_key_that_is_long_{:05}", i);
        let value = format!("value_{:05}", i);
        naive += 2 + 2 + key.len() + 2 + value.len() + 2;
    }

    println!(
        "PREFIX_SIZE entries={} encoded_with_compression={} naive_no_compression={} saved={}",
        n,
        encoded_len,
        naive,
        naive as i64 - encoded_len as i64
    );
}

#[test]
fn encode_prefix_compresses_against_first_key() {
    let block = build(&[(b"a", b"1"), (b"ab", b"2")], 4096);
    assert_eq!(block.num_entries(), 2);
    assert_eq!(
        block.encode(),
        vec![
            0, 0, 0, 1, b'a', 0, 1, b'1', // overlap 0, rest "a", value "1"
            0, 1, 0, 1, b'b', 0, 1, b'2', // overlap 1, rest "b", value "2"
            0, 0, 0, 8, // offsets
            0, 2, // count
        ]
    );
}

#[test]
fn encode_empty_block() {
    let block = BlockBuilder::new(4096).build();
    assert_eq!(block.num_entries(), 0);
    assert_eq!(block.encode(), vec![0, 0]);
}

#[test]
fn builder_is_empty_until_first_add() {
    let mut builder = BlockBuilder::new(4096);
    assert!(builder.is_empty());
    assert!(builder.add(b"k", b"v"));
    assert!(!builder.is_empty());
}

#[test]
fn builder_refuses_entry_past_block_size() {
    let mut builder = BlockBuilder::new(10);
    // The first entry always fits, however small the block.
    assert!(builder.add(b"key1", b"value1"));
    assert!(!builder.add(b"key2", b"value2"));
    assert_eq!(builder.build().num_entries(), 1);
}

#[test]
fn builder_refuses_oversized_key_and_value() {
    let mut builder = BlockBuilder::new(1 << 20);
    let big = vec![7u8; 65536];
    assert!(!builder.add(&big, b"v"));
    assert!(!builder.add(b"k", &big));
    assert!(builder.is_empty());
    assert!(builder.add(&big[..65535], b"v"));
}

#[test]
fn iterate_built_block() {
    let block = Arc::new(build(&[(b"apple", b"1"), (b"apricot", b"2"), (b"banana", b"3")], 4096));
    let mut iter = BlockIterator::create_and_seek_to_first(block);
    let mut seen = Vec::new();
    while iter.is_valid() {
        seen.push((iter.key().to_vec(), iter.value().to_vec()));
        iter.next();
    }
    assert_eq!(
        seen,
        vec![
            (b"apple".to_vec(), b"1".to_vec()),
            (b"apricot".to_vec(), b"2".to_vec()),
            (b"banana".to_vec(), b"3".to_vec()),
        ]
    );
    // Past the end it stays exhausted.
    iter.next();
    assert!(!iter.is_valid());
    assert_eq!(iter.key(), b"");
    assert_eq!(iter.value(), b"");
}

#[test]
fn seek_to_key_finds_first_not_smaller() {
    let block = Arc::new(build(&[(b"b", b"1"), (b"d", b"2"), (b"f", b"3")], 4096));
    let mut iter = BlockIterator::create_and_seek_to_key(block.clone(), b"d");
    assert_eq!(iter.key(), b"d");
    assert_eq!(iter.value(), b"2");
    iter.seek_to_key(b"c");
    assert_eq!(iter.key(), b"d");
    iter.seek_to_key(b"a");
    assert_eq!(iter.key(), b"b");
    iter.seek_to_key(b"ff");
    assert!(!iter.is_valid());
    iter.seek_to_first();
    assert_eq!(iter.key(), b"b");
    assert_eq!(iter.value(), b"1");
}

fn good_block() -> Vec<u8> {
    vec![
        0x00, 0x00, 0x00, 0x02, b'k', b'1', 0x00, 0x02, b'v', b'1', // entry
        0x00, 0x00, // offsets[0] = 0
        0x00, 0x01, // count = 1
    ]
}

#[test]
fn decode_well_formed_block() {
    let block = Block::decode_checked(&good_block()).unwrap();
    assert_eq!(block.num_entries(), 1);
    let iter = BlockIterator::create_and_seek_to_first(Arc::new(block));
    assert_eq!(iter.key(), b"k1");
    assert_eq!(iter.value(), b"v1");
    let block = Block::decode(&good_block());
    assert_eq!(block.num_entries(), 1);
}

#[test]
fn decode_two_entries_decompresses_against_first_key() {
    let data: Vec<u8> = vec![
        0, 0, 0, 2, b'k', b'1', 0, 2, b'v', b'1', // entry 0
        0, 1, 0, 1, b'2', 0, 2, b'v', b'2', // entry 1: "k" shared with the first key
        0, 0, 0, 10, // offsets
        0, 2, // count
    ];
    let block = Block::decode_checked(&data).unwrap();
    assert_eq!(block.encode(), data);
    let mut iter = BlockIterator::create_and_seek_to_first(Arc::new(block));
    assert_eq!(iter.key(), b"k1");
    assert_eq!(iter.value(), b"v1");
    iter.next();
    assert_eq!(iter.key(), b"k2");
    assert_eq!(iter.value(), b"v2");
    iter.next();
    assert!(!iter.is_valid());
}

#[test]
fn encoded_block_decodes_to_its_entries() {
    let entries: [(&[u8], &[u8]); 5] = [
        (b"apple", b"1"),
        (b"apricot", b"22"),
        (b"banana", b""),
        (b"band", b"4444"),
        (b"bandana", b"5"),
    ];
    let block = build(&entries, 4096);
    let encoded = block.encode();
    let decoded = Block::decode_checked(&encoded).unwrap();
    assert_eq!(decoded.num_entries(), entries.len());
    assert_eq!(decoded.encode(), encoded);
    let mut iter = BlockIterator::create_and_seek_to_first(Arc::new(Block::decode(&encoded)));
    for (k, v) in entries {
        assert!(iter.is_valid());
        assert_eq!(iter.key(), k);
        assert_eq!(iter.value(), v);
        iter.next();
    }
    assert!(!iter.is_valid());
}

#[test]
fn decode_rejects_overlap_beyond_first_key() {
    // The first entry claims one byte shared with a first key that does not exist yet.
    let first: Vec<u8> = vec![0, 1, 0, 1, b'k', 0, 1, b'v', 0, 0, 0, 1];
    assert_eq!(Block::decode_checked(&first).err(), Some(BlockDecodeError::OverlapBeyondFirstKey));
    // A block whose first key is empty but whose later keys were compressed against
    // a longer one.
    let block = build(&[(b"", b"v"), (b"ab", b"x"), (b"ab", b"y")], 4096);
    assert_eq!(
        Block::decode_checked(&block.encode()).err(),
        Some(BlockDecodeError::OverlapBeyondFirstKey)
    );
}

#[test]
fn decode_rejects_impossible_count() {
    let mut data = good_block();
    let len = data.len();
    data[len - 2..].copy_from_slice(&5u16.to_be_bytes());
    assert_eq!(Block::decode_checked(&data).err(), Some(BlockDecodeError::FirstOffsetNotZero));
}

#[test]
fn decode_rejects_non_monotonic_offsets() {
    let data: Vec<u8> = vec![
        0, 0, 0, 2, b'k', b'1', 0, 2, b'v', b'1', //
        0, 1, 0, 1, b'2', 0, 2, b'v', b'2', //
        0x00, 0x00, 0x00, 0x00, //
        0x00, 0x02,
    ];
    assert_eq!(Block::decode_checked(&data).err(), Some(BlockDecodeError::OffsetsNotIncreasing));
}

#[test]
fn decode_rejects_out_of_range_offset() {
    let data: Vec<u8> = vec![
        0, 0, 0, 2, b'k', b'1', 0, 2, b'v', b'1', //
        0x00, 0x00, 0x00, 0x64, //
        0x00, 0x02,
    ];
    assert_eq!(Block::decode_checked(&data).err(), Some(BlockDecodeError::EntryOutOfRange));
}

#[test]
fn decode_rejects_value_length_beyond_entry() {
    let mut data = good_block();
    data[6..8].copy_from_slice(&0xFFFFu16.to_be_bytes());
    assert_eq!(Block::decode_checked(&data).err(), Some(BlockDecodeError::ValueLengthInvalid));
}

#[test]
fn decode_rejects_truncated_footer_and_tables() {
    assert_eq!(Block::decode_checked(&[0]).err(), Some(BlockDecodeError::FooterTruncated));
    assert_eq!(Block::decode_checked(&[]).err(), Some(BlockDecodeError::FooterTruncated));
    assert_eq!(Block::decode_checked(&[0, 0]).err(), Some(BlockDecodeError::NoEntries));
    assert_eq!(Block::decode_checked(&[0, 5]).err(), Some(BlockDecodeError::OffsetTableTruncated));
}

#[test]
fn decode_rejects_short_entries() {
    let header: Vec<u8> = vec![0x00, 0x00, b'k', 0x00, 0x00, 0x00, 0x01];
    assert_eq!(Block::decode_checked(&header).err(), Some(BlockDecodeError::EntryHeaderTruncated));
    let key: Vec<u8> = vec![0x00, 0x00, 0x00, 0x09, b'k', b'v', 0x00, 0x00, 0x00, 0x01];
    assert_eq!(Block::decode_checked(&key).err(), Some(BlockDecodeError::EntryLengthTruncated));
}

#[test]
fn decode_rejects_entries_that_overflow_a_block() {
    let value = vec![1u8; 40000];
    let mut data = Vec::new();
    for key in [b'a', b'b'] {
        data.extend_from_slice(&0u16.to_be_bytes());
        data.extend_from_slice(&1u16.to_be_bytes());
        data.push(key);
        data.extend_from_slice(&40000u16.to_be_bytes());
        data.extend_from_slice(&value);
    }
    data.extend_from_slice(&0u16.to_be_bytes());
    data.extend_from_slice(&40007u16.to_be_bytes());
    data.extend_from_slice(&2u16.to_be_bytes());
    assert_eq!(Block::decode_checked(&data).err(), Some(BlockDecodeError::BlockFull));
}

#[test]
fn builder_estimate_is_encoded_length() {
    let mut builder = BlockBuilder::new(4096);
    assert_eq!(builder.estimated_size(), 2);
    assert!(builder.add(b"apple", b"1"));
    assert!(builder.add(b"apricot", b"22"));
    let estimate = builder.estimated_size();
    assert_eq!(estimate, builder.build().encode().len());
}
