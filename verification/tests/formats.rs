use mini_lsm_starter::manifest::{ManifestError, encode_manifest_record, next_manifest_record};
use mini_lsm_starter::table::{SsTableBuilder, fingerprint32_safe};
use mini_lsm_starter::wal::{WalError, decode_wal_records, encode_wal_record, wal_complete};

fn frame(record: &[u8]) -> Vec<u8> {
    encode_manifest_record(record).unwrap()
}

#[test]
fn manifest_frame_layout() {
    let f = frame(b"abc");
    let h = crc32fast::hash(b"abc").to_be_bytes();
    assert_eq!(f, vec![0, 3, b'a', b'b', b'c', h[0], h[1], h[2], h[3]]);
    // The CRC-32 of "abc", big endian.
    assert_eq!(&f[5..], &[0x35, 0x24, 0x41, 0xc2]);
    // The checksum is the one of the record, not of the length or of nothing.
    assert_ne!(crc32fast::hash(b"abc"), 0);
    assert_eq!(frame(b""), {
        let h = crc32fast::hash(b"").to_be_bytes();
        vec![0, 0, h[0], h[1], h[2], h[3]]
    });
}

#[test]
fn manifest_frames_read_back_in_order() {
    let mut buf = frame(b"{\"Flush\":1}");
    buf.extend(frame(b"{\"NewMemtable\":2}"));
    let (first, next) = next_manifest_record(&buf, 0).unwrap().unwrap();
    assert_eq!(first, b"{\"Flush\":1}".to_vec());
    assert_eq!(next, 2 + 11 + 4);
    let (second, end) = next_manifest_record(&buf, next).unwrap().unwrap();
    assert_eq!(second, b"{\"NewMemtable\":2}".to_vec());
    assert_eq!(end, buf.len());
    assert_eq!(next_manifest_record(&buf, end), Ok(None));
}

#[test]
fn manifest_record_too_large() {
    let big = vec![b'x'; 65536];
    assert_eq!(encode_manifest_record(&big), Err(ManifestError::RecordTooLarge));
    let max = vec![b'x'; 65535];
    let f = encode_manifest_record(&max).unwrap();
    assert_eq!(f.len(), 65535 + 6);
    assert_eq!(&f[..2], &[0xff, 0xff]);
}

#[test]
fn manifest_truncations() {
    let f = frame(b"abc");
    assert_eq!(next_manifest_record(&f[..1], 0), Err(ManifestError::LenTruncated));
    assert_eq!(next_manifest_record(&f[..5], 0), Err(ManifestError::RecordTruncated));
    assert_eq!(next_manifest_record(&f[..4], 0), Err(ManifestError::RecordTruncated));
    assert_eq!(next_manifest_record(&f[..8], 0), Err(ManifestError::ChecksumTruncated));
    assert_eq!(next_manifest_record(&f[..6], 0), Err(ManifestError::ChecksumTruncated));
}

#[test]
fn manifest_corruption() {
    let mut f = frame(b"abc");
    f[8] ^= 1;
    assert_eq!(next_manifest_record(&f, 0), Err(ManifestError::Corrupted));
    let mut g = frame(b"abc");
    g[3] = b'x';
    assert_eq!(next_manifest_record(&g, 0), Err(ManifestError::Corrupted));
}

#[test]
fn wal_record_layout() {
    assert_eq!(encode_wal_record(b"k", b"vv").unwrap(), vec![0, 1, b'k', 0, 2, b'v', b'v']);
    assert_eq!(encode_wal_record(b"", b"").unwrap(), vec![0, 0, 0, 0]);
}

#[test]
fn wal_records_read_back() {
    let mut log = encode_wal_record(b"k", b"vv").unwrap();
    log.extend(encode_wal_record(b"ab", b"").unwrap());
    log.extend(encode_wal_record(b"k", b"new").unwrap());
    assert!(wal_complete(&log));
    assert_eq!(
        decode_wal_records(&log),
        vec![
            (b"k".to_vec(), b"vv".to_vec()),
            (b"ab".to_vec(), b"".to_vec()),
            (b"k".to_vec(), b"new".to_vec()),
        ]
    );
    assert!(wal_complete(&[]));
    assert!(decode_wal_records(&[]).is_empty());
}

#[test]
fn wal_incomplete_logs() {
    let log = encode_wal_record(b"key", b"value").unwrap();
    for cut in 1..log.len() {
        assert!(!wal_complete(&log[..cut]), "cut at {}", cut);
    }
}

#[test]
fn wal_too_large() {
    let big = vec![0u8; 65536];
    assert_eq!(encode_wal_record(&big, b"v"), Err(WalError::KeyTooLarge));
    assert_eq!(encode_wal_record(b"k", &big), Err(WalError::ValueTooLarge));
    assert_eq!(encode_wal_record(&big, &big), Err(WalError::KeyTooLarge));
}

#[test]
fn sst_builder_hashes_keys() {
    let mut b = SsTableBuilder::new(4096);
    b.add(b"key1", b"value1");
    b.add(b"key2", b"value2");
    assert_eq!(b.key_hashes(), &[farmhash::fingerprint32(b"key1"), farmhash::fingerprint32(b"key2")]);
    assert_ne!(farmhash::fingerprint32(b"key1"), farmhash::fingerprint32(b"key2"));
    let mut c = SsTableBuilder::new(4096);
    c.add(b"hello world", b"v");
    assert_eq!(c.key_hashes(), &[430397466]);
}

#[test]
fn sst_builder_estimated_size_counts_blocks() {
    let mut b = SsTableBuilder::new(32);
    // Nothing is in a data block yet.
    assert_eq!(b.estimated_size(), 0);
    b.add(b"key1", b"value1");
    assert_eq!(b.estimated_size(), 0);
    // The first block is full: it is sealed (16 bytes of entry, an offset and a count).
    b.add(b"key2", b"value2");
    assert_eq!(b.estimated_size(), 20);
    b.add(b"key3", b"value3");
    assert_eq!(b.estimated_size(), 40);
}

#[test]
fn fingerprint_overflow_inputs() {
    assert!(fingerprint32_safe(b"key1"));
    assert!(fingerprint32_safe(b"hello world"));
    assert!(!fingerprint32_safe(&[0xff, 0xff, 0xff, 0xff, 0x00]));
    assert!(fingerprint32_safe(&[0x00, 0x00, 0x00, 0x00, 0x00]));
    assert!(fingerprint32_safe(&[0xff; 25]));
    assert!(fingerprint32_safe(&[0xff; 4]));
}
