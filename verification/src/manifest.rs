//! The manifest: a log of the changes to the engine's state, one framed record each.
//!
//! Frame layout: `length (u16, big endian) | record | CRC32 of record (u32, big endian)`.
use crate::block::{be_value, put_slice, put_u16, u16_be};
use crate::compact::CompactionTask;
use vstd::prelude::*;

verus! {

/// A change to the engine's state.
#[derive(Debug)]
pub enum ManifestRecord {
    Flush(usize),
    NewMemtable(usize),
    Compaction(CompactionTask, Vec<usize>),
}

/// Why a manifest frame is refused.
#[derive(Debug, PartialEq, Eq)]
pub enum ManifestError {
    /// The record is longer than a `u16` length can say.
    RecordTooLarge,
    /// The buffer ends inside a length field.
    LenTruncated,
    /// The buffer ends inside a record or right after it.
    RecordTruncated,
    /// The buffer ends inside a checksum.
    ChecksumTruncated,
    /// The checksum does not match the record.
    Corrupted,
}

/// What `crc32fast::hash` returns for a byte string: its CRC32 checksum.
pub uninterp spec fn crc32_of(data: Seq<u8>) -> u32;

/// Calls `crc32fast::hash`; its result is `crc32_of` of the bytes.
#[verifier::external_body]
fn crc32(data: &[u8]) -> (r: u32)
    ensures
        r == crc32_of(data@),
{
    crc32fast::hash(data)
}

/// The four big-endian bytes of a `u32`.
pub open spec fn u32_be(x: u32) -> Seq<u8> {
    seq![
        (x / 0x1000000) as u8,
        ((x / 0x10000) % 256) as u8,
        ((x / 0x100) % 256) as u8,
        (x % 256) as u8,
    ]
}

/// The value of four big-endian bytes.
pub open spec fn be_value32(b: Seq<u8>) -> nat {
    (b[0] as nat) * 0x1000000 + (b[1] as nat) * 0x10000 + (b[2] as nat) * 0x100 + (b[3] as nat)
}

/// The frame holding `record`.
pub open spec fn frame_image(record: Seq<u8>) -> Seq<u8> {
    u16_be(record.len()) + record + u32_be(crc32_of(record))
}

/// Reading the frame at `cur`: `None` at the end of the buffer, or the record and the
/// position of the next frame, or why the frame is refused.
pub open spec fn next_frame_spec(buf: Seq<u8>, cur: int) -> Result<Option<(Seq<u8>, int)>, ManifestError> {
    if cur >= buf.len() {
        Ok(None)
    } else if cur + 1 >= buf.len() {
        Err(ManifestError::LenTruncated)
    } else {
        let len = be_value(buf[cur], buf[cur + 1]) as int;
        let start = cur + 2;
        if start + len >= buf.len() {
            Err(ManifestError::RecordTruncated)
        } else {
            let record = buf.subrange(start, start + len);
            let sum_at = start + len;
            if sum_at + 3 >= buf.len() {
                Err(ManifestError::ChecksumTruncated)
            } else if be_value32(buf.subrange(sum_at, sum_at + 4)) != crc32_of(record) as nat {
                Err(ManifestError::Corrupted)
            } else {
                Ok(Some((record, sum_at + 4)))
            }
        }
    }
}

/// The four big-endian bytes of a `u32` read back as that `u32`.
pub proof fn lemma_u32_be(x: u32)
    ensures
        u32_be(x).len() == 4,
        be_value32(u32_be(x)) == x as nat,
{
    let b0 = x / 0x1000000;
    let b1 = (x / 0x10000) % 256;
    let b2 = (x / 0x100) % 256;
    let b3 = x % 256;
    assert(b0 < 256 && b1 < 256 && b2 < 256 && b3 < 256) by (bit_vector)
        requires
            b0 == x / 0x1000000,
            b1 == (x / 0x10000) % 256,
            b2 == (x / 0x100) % 256,
            b3 == x % 256,
    ;
    assert(b0 * 0x1000000 + b1 * 0x10000 + b2 * 0x100 + b3 == x) by (bit_vector)
        requires
            b0 == x / 0x1000000,
            b1 == (x / 0x10000) % 256,
            b2 == (x / 0x100) % 256,
            b3 == x % 256,
    ;
}

/// A frame written after any bytes reads back, from where it starts, as the
/// record it holds, and the next frame starts right after it: whatever follows.
pub proof fn lemma_frame_read_back(prefix: Seq<u8>, record: Seq<u8>, rest: Seq<u8>)
    requires
        record.len() <= 65535,
    ensures
        next_frame_spec(prefix + frame_image(record) + rest, prefix.len() as int) == Ok::<
            Option<(Seq<u8>, int)>,
            ManifestError,
        >(Some((record, (prefix.len() + record.len() + 6) as int))),
{
    let buf = prefix + frame_image(record) + rest;
    let p = prefix.len() as int;
    let n = record.len() as int;
    let sum = crc32_of(record);
    crate::block::lemma_u16_be(record.len());
    lemma_u32_be(sum);
    assert(buf[p] == u16_be(record.len())[0]);
    assert(buf[p + 1] == u16_be(record.len())[1]);
    assert(buf.subrange(p + 2, p + 2 + n) =~= record);
    assert(buf.subrange(p + 2 + n, p + 2 + n + 4) =~= u32_be(sum));
}

/// A manifest holding `records` in order, one frame each.
pub open spec fn manifest_image(records: Seq<Seq<u8>>) -> Seq<u8>
    decreases records.len(),
{
    if records.len() == 0 {
        Seq::empty()
    } else {
        manifest_image(records.drop_last()) + frame_image(records.last())
    }
}

proof fn lemma_manifest_image_split(records: Seq<Seq<u8>>, i: int)
    requires
        0 <= i <= records.len(),
    ensures
        manifest_image(records) == manifest_image(records.take(i)) + manifest_image(records.skip(i)),
    decreases records.len() - i,
{
    if i == records.len() {
        assert(records.take(i) =~= records);
        assert(records.skip(i) =~= Seq::<Seq<u8>>::empty());
        assert(manifest_image(records.take(i)) + manifest_image(records.skip(i)) =~= manifest_image(records));
    } else {
        lemma_manifest_image_split(records.drop_last(), i);
        assert(records.drop_last().take(i) =~= records.take(i));
        assert(records.skip(i).drop_last() =~= records.drop_last().skip(i));
        assert(records.skip(i).last() == records.last());
        assert(manifest_image(records.take(i)) + manifest_image(records.skip(i)) =~= manifest_image(records));
    }
}

/// A manifest reads back record by record: the frame at the end of the first `i`
/// frames is record `i`, and the next frame starts where it ends; at the end of the
/// manifest there is nothing more to read.
pub proof fn lemma_manifest_read_back(records: Seq<Seq<u8>>, i: int)
    requires
        forall|j: int| 0 <= j < records.len() ==> (#[trigger] records[j]).len() <= 65535,
        0 <= i <= records.len(),
    ensures
        i < records.len() ==> next_frame_spec(manifest_image(records), manifest_image(records.take(i)).len() as int)
            == Ok::<Option<(Seq<u8>, int)>, ManifestError>(
            Some((records[i], manifest_image(records.take(i + 1)).len() as int)),
        ),
        i == records.len() ==> next_frame_spec(manifest_image(records), manifest_image(records.take(i)).len() as int)
            == Ok::<Option<(Seq<u8>, int)>, ManifestError>(None),
{
    if i < records.len() {
        let prefix = manifest_image(records.take(i));
        lemma_manifest_image_split(records, i);
        let tail = records.skip(i);
        lemma_manifest_image_split(tail, 1);
        assert(tail.take(1).drop_last() =~= Seq::<Seq<u8>>::empty());
        assert(manifest_image(Seq::<Seq<u8>>::empty()) == Seq::<u8>::empty());
        assert(tail.take(1).last() == records[i]);
        assert(manifest_image(tail.take(1)) == manifest_image(tail.take(1).drop_last()) + frame_image(records[i]));
        assert(manifest_image(tail.take(1)) =~= frame_image(records[i]));
        assert(records.take(i + 1).drop_last() =~= records.take(i));
        assert(records.take(i + 1).last() == records[i]);
        assert(manifest_image(records) =~= prefix + frame_image(records[i]) + manifest_image(tail.skip(1)));
        lemma_frame_read_back(prefix, records[i], manifest_image(tail.skip(1)));
    } else {
        assert(records.take(i) =~= records);
    }
}

fn put_u32(buf: &mut Vec<u8>, x: u32)
    ensures
        final(buf)@ == old(buf)@ + u32_be(x),
{
    buf.push((x / 0x1000000) as u8);
    buf.push(((x / 0x10000) % 256) as u8);
    buf.push(((x / 0x100) % 256) as u8);
    buf.push((x % 256) as u8);
    assert(final(buf)@ =~= old(buf)@ + u32_be(x));
}

/// Frames a serialized record, refusing one longer than `u16::MAX` bytes.
pub fn encode_manifest_record(record: &[u8]) -> (r: Result<Vec<u8>, ManifestError>)
    ensures
        record@.len() <= 65535 ==> r is Ok && r->Ok_0@ == frame_image(record@),
        record@.len() > 65535 ==> r is Err && r->Err_0 == ManifestError::RecordTooLarge,
{
    if record.len() > 65535 {
        return Err(ManifestError::RecordTooLarge);
    }
    let h = crc32(record);
    let mut buf: Vec<u8> = Vec::new();
    put_u16(&mut buf, record.len() as u16);
    put_slice(&mut buf, record);
    put_u32(&mut buf, h);
    assert(buf@ =~= frame_image(record@));
    Ok(buf)
}

/// Reads the frame at `cur`, checking its length and checksum: `None` at the end of
/// the buffer, or the record and the position of the next frame.
pub fn next_manifest_record(buf: &[u8], cur: usize) -> (r: Result<Option<(Vec<u8>, usize)>, ManifestError>)
    ensures
        match (r, next_frame_spec(buf@, cur as int)) {
            (Ok(None), Ok(None)) => true,
            (Ok(Some((record, next))), Ok(Some((spec_record, spec_next)))) => record@ == spec_record && next == spec_next,
            (Err(e), Err(spec_e)) => e == spec_e,
            _ => false,
        },
{
    let n = buf.len();
    if cur >= n {
        return Ok(None);
    }
    if cur + 1 >= n {
        return Err(ManifestError::LenTruncated);
    }
    let len = crate::block::get_u16(buf, cur) as usize;
    let start = cur + 2;
    if len >= n - start {
        return Err(ManifestError::RecordTruncated);
    }
    let record = crate::block::copy_bytes(&buf[start..start + len]);
    let sum_at = start + len;
    if 3 >= n - sum_at {
        return Err(ManifestError::ChecksumTruncated);
    }
    let stored = (buf[sum_at] as u32) * 0x1000000 + (buf[sum_at + 1] as u32) * 0x10000
        + (buf[sum_at + 2] as u32) * 0x100 + (buf[sum_at + 3] as u32);
    proof {
        assert(buf@.subrange(sum_at as int, sum_at + 4)[0] == buf@[sum_at as int]);
        assert(buf@.subrange(sum_at as int, sum_at + 4)[1] == buf@[sum_at + 1]);
        assert(buf@.subrange(sum_at as int, sum_at + 4)[2] == buf@[sum_at + 2]);
        assert(buf@.subrange(sum_at as int, sum_at + 4)[3] == buf@[sum_at + 3]);
    }
    if stored != crc32(record.as_slice()) {
        return Err(ManifestError::Corrupted);
    }
    Ok(Some((record, sum_at + 4)))
}

} // verus!
