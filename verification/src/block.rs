//! A block is the smallest unit of read and caching in the LSM tree: a sorted
//! run of key-value entries, prefix-compressed against the block's first key.
//!
//! Layout produced by [`Block::encode`]:
//! `entry* | offset (u16, big endian)* | number of entries (u16, big endian)`,
//! where each entry is
//! `overlap (u16) | rest key length (u16) | rest of key | value length (u16) | value`.
//!
//! Decoding ([`Block::decode_checked`]) reads the same layout back, rebuilding each key
//! from the prefix it shares with the first key; an encoded block decodes to the entries
//! it holds (see [`lemma_encoded_block_decodes`]).
pub mod builder;
pub mod iterator;

pub use builder::BlockBuilder;
pub use iterator::BlockIterator;

use crate::key::common_prefix_len;
use vstd::prelude::*;

verus! {

/// Size of an encoded `u16`.
pub const SIZEOF_U16: usize = 2;

/// Largest value of a `u16`.
pub const U16_MAX: usize = 65535;

/// The two big-endian bytes of a value below 2^16.
pub open spec fn u16_be(x: nat) -> Seq<u8> {
    seq![(x / 256) as u8, (x % 256) as u8]
}

/// The value of two big-endian bytes.
pub open spec fn be_value(hi: u8, lo: u8) -> nat {
    (hi as nat) * 256 + (lo as nat)
}

/// The key a block builder compresses against once `entries` have been added:
/// the first non-empty key among them, or the empty key.
#[verifier::opaque]
pub open spec fn builder_first_key(entries: Seq<(Seq<u8>, Seq<u8>)>) -> Seq<u8>
    decreases entries.len(),
{
    if entries.len() == 0 {
        Seq::empty()
    } else {
        let earlier = builder_first_key(entries.drop_last());
        if earlier.len() > 0 {
            earlier
        } else {
            entries.last().0
        }
    }
}

/// Encoding of one entry, prefix-compressed against `first_key`.
pub open spec fn entry_image(first_key: Seq<u8>, key: Seq<u8>, value: Seq<u8>) -> Seq<u8> {
    let overlap = common_prefix_len(first_key, key);
    u16_be(overlap) + u16_be((key.len() - overlap) as nat) + key.skip(overlap as int) + u16_be(
        value.len(),
    ) + value
}

/// Overlap stored for entry `i` of `entries`.
pub open spec fn stored_overlap(entries: Seq<(Seq<u8>, Seq<u8>)>, i: int) -> nat {
    common_prefix_len(builder_first_key(entries.take(i)), entries[i].0)
}

/// The data section of a block holding `entries`.
#[verifier::opaque]
pub open spec fn block_data(entries: Seq<(Seq<u8>, Seq<u8>)>) -> Seq<u8>
    decreases entries.len(),
{
    if entries.len() == 0 {
        Seq::empty()
    } else {
        block_data(entries.drop_last()) + entry_image(
            builder_first_key(entries.drop_last()),
            entries.last().0,
            entries.last().1,
        )
    }
}

/// Offset of entry `i` within the data section.
pub open spec fn entry_offset(entries: Seq<(Seq<u8>, Seq<u8>)>, i: int) -> nat {
    block_data(entries.take(i)).len()
}

/// The offset table of a block holding `entries`.
#[verifier::opaque]
pub open spec fn offsets_image(entries: Seq<(Seq<u8>, Seq<u8>)>) -> Seq<u8>
    decreases entries.len(),
{
    if entries.len() == 0 {
        Seq::empty()
    } else {
        offsets_image(entries.drop_last()) + u16_be(block_data(entries.drop_last()).len())
    }
}

/// The full encoding of a block holding `entries`.
pub open spec fn block_image(entries: Seq<(Seq<u8>, Seq<u8>)>) -> Seq<u8> {
    block_data(entries) + offsets_image(entries) + u16_be(entries.len())
}

/// Every key and value fits a `u16` length and every entry starts at an offset
/// that fits a `u16`: what a block builder guarantees of what it accepted.
pub open spec fn well_sized(entries: Seq<(Seq<u8>, Seq<u8>)>) -> bool {
    forall|i: int|
        0 <= i < entries.len() ==> {
            &&& (#[trigger] entries[i]).0.len() <= U16_MAX
            &&& entries[i].1.len() <= U16_MAX
            &&& entry_offset(entries, i) <= U16_MAX
        }
}

/// Size a block builder reports for `entries`: entry count, offsets and data.
pub open spec fn estimated_size_of(entries: Seq<(Seq<u8>, Seq<u8>)>) -> nat {
    (SIZEOF_U16 + SIZEOF_U16 * entries.len() + block_data(entries).len()) as nat
}

/// Whether a block builder holding `entries`, with target size `block_size`,
/// accepts the entry `(key, value)`.
pub open spec fn builder_accepts(
    entries: Seq<(Seq<u8>, Seq<u8>)>,
    block_size: nat,
    key: Seq<u8>,
    value: Seq<u8>,
) -> bool {
    &&& key.len() <= U16_MAX
    &&& value.len() <= U16_MAX
    &&& (entries.len() == 0 || estimated_size_of(entries) + key.len() + value.len() + 3
        * SIZEOF_U16 <= block_size)
    &&& block_data(entries).len() <= U16_MAX
}

/// A block whose entries decode back: every stored overlap fits in the first key
/// of the block, the key a reader decompresses against.
pub open spec fn decodable(entries: Seq<(Seq<u8>, Seq<u8>)>) -> bool {
    forall|i: int| 0 <= i < entries.len() ==> #[trigger] stored_overlap(entries, i) <= entries[0].0.len()
}

/// Keys in non-decreasing order.
pub open spec fn keys_sorted(entries: Seq<(Seq<u8>, Seq<u8>)>) -> bool {
    forall|i: int, j: int|
        0 <= i < j < entries.len() ==> crate::key::lex_le(entries[i].0, entries[j].0)
}

pub proof fn lemma_u16_be(x: nat)
    requires
        x <= U16_MAX,
    ensures
        u16_be(x).len() == 2,
        be_value(u16_be(x)[0], u16_be(x)[1]) == x,
{
}

pub proof fn lemma_take_push<A>(s: Seq<A>, a: A, i: int)
    requires
        0 <= i <= s.len(),
    ensures
        s.push(a).take(i) == s.take(i),
{
    assert(s.push(a).take(i) =~= s.take(i));
}

pub proof fn lemma_block_data_len(entries: Seq<(Seq<u8>, Seq<u8>)>)
    ensures
        block_data(entries).len() >= 6 * entries.len(),
    decreases entries.len(),
{
    reveal(block_data);
    if entries.len() > 0 {
        lemma_block_data_len(entries.drop_last());
        let fk = builder_first_key(entries.drop_last());
        crate::key::lemma_common_prefix_len(fk, entries.last().0);
    }
}

/// The encodings of no entries are empty.
pub proof fn lemma_empty_block()
    ensures
        block_data(Seq::<(Seq<u8>, Seq<u8>)>::empty()) == Seq::<u8>::empty(),
        offsets_image(Seq::<(Seq<u8>, Seq<u8>)>::empty()) == Seq::<u8>::empty(),
        builder_first_key(Seq::<(Seq<u8>, Seq<u8>)>::empty()) == Seq::<u8>::empty(),
{
    reveal(block_data);
    reveal(offsets_image);
    reveal(builder_first_key);
}

/// One more offset in the offset table.
pub proof fn lemma_offsets_image_step(entries: Seq<(Seq<u8>, Seq<u8>)>, k: int)
    requires
        0 <= k < entries.len(),
    ensures
        offsets_image(entries.take(k + 1)) == offsets_image(entries.take(k)) + u16_be(
            block_data(entries.take(k)).len(),
        ),
{
    reveal(offsets_image);
    assert(entries.take(k + 1).drop_last() =~= entries.take(k));
}

/// What adding one entry does to the encoding.
pub proof fn lemma_push_entry(entries: Seq<(Seq<u8>, Seq<u8>)>, key: Seq<u8>, value: Seq<u8>)
    requires
        well_sized(entries),
        key.len() <= U16_MAX,
        value.len() <= U16_MAX,
        block_data(entries).len() <= U16_MAX,
    ensures
        ({
            let pushed = entries.push((key, value));
            &&& well_sized(pushed)
            &&& block_data(pushed) == block_data(entries) + entry_image(
                builder_first_key(entries),
                key,
                value,
            )
            &&& builder_first_key(pushed) == if builder_first_key(entries).len() > 0 {
                builder_first_key(entries)
            } else {
                key
            }
            &&& forall|i: int|
                0 <= i < pushed.len() ==> #[trigger] entry_offset(pushed, i) == if i
                    < entries.len() {
                    entry_offset(entries, i)
                } else {
                    block_data(entries).len()
                }
        }),
{
    reveal(block_data);
    reveal(builder_first_key);
    let pushed = entries.push((key, value));
    assert(pushed.drop_last() =~= entries);
    assert forall|i: int| 0 <= i < pushed.len() implies #[trigger] entry_offset(pushed, i) == if i
        < entries.len() {
        entry_offset(entries, i)
    } else {
        block_data(entries).len()
    } by {
        if i < entries.len() {
            lemma_take_push(entries, (key, value), i);
        } else {
            assert(pushed.take(i) =~= entries);
        }
    }
    assert forall|i: int| 0 <= i < pushed.len() implies {
        &&& (#[trigger] pushed[i]).0.len() <= U16_MAX
        &&& pushed[i].1.len() <= U16_MAX
        &&& entry_offset(pushed, i) <= U16_MAX
    } by {
        assert(entry_offset(pushed, i) == if i < entries.len() {
            entry_offset(entries, i)
        } else {
            block_data(entries).len()
        });
    }
}

/// The data of a prefix of the entries is a prefix of the data.
pub proof fn lemma_block_data_prefix(entries: Seq<(Seq<u8>, Seq<u8>)>, i: int)
    requires
        0 <= i <= entries.len(),
    ensures
        block_data(entries.take(i)).len() <= block_data(entries).len(),
        block_data(entries).subrange(0, block_data(entries.take(i)).len() as int) == block_data(
            entries.take(i),
        ),
    decreases entries.len() - i,
{
    reveal(block_data);
    if i == entries.len() {
        assert(entries.take(i) =~= entries);
        assert(block_data(entries).subrange(0, block_data(entries).len() as int) =~= block_data(
            entries,
        ));
    } else {
        lemma_block_data_prefix(entries, i + 1);
        let t = entries.take(i + 1);
        assert(t.drop_last() =~= entries.take(i));
        let a = block_data(entries.take(i));
        let b = block_data(t);
        assert(b.subrange(0, a.len() as int) =~= a);
        assert(block_data(entries).subrange(0, a.len() as int) =~= b.subrange(0, a.len() as int));
    }
}

/// Entry `i` is stored at its offset, compressed against the first key the builder
/// had when it was added.
pub proof fn lemma_entry_at(entries: Seq<(Seq<u8>, Seq<u8>)>, i: int)
    requires
        0 <= i < entries.len(),
    ensures
        ({
            let off = entry_offset(entries, i) as int;
            let img = entry_image(builder_first_key(entries.take(i)), entries[i].0, entries[i].1);
            &&& off + img.len() <= block_data(entries).len()
            &&& block_data(entries).subrange(off, off + img.len()) == img
            &&& entry_offset(entries, i + 1) == off + img.len()
        }),
{
    reveal(block_data);
    lemma_block_data_prefix(entries, i + 1);
    let t = entries.take(i + 1);
    assert(t.drop_last() =~= entries.take(i));
    assert(t.last() == entries[i]);
    let off = entry_offset(entries, i) as int;
    let img = entry_image(builder_first_key(entries.take(i)), entries[i].0, entries[i].1);
    let b = block_data(t);
    assert(b == block_data(entries.take(i)) + img);
    assert(b.subrange(off, off + img.len()) =~= img);
    assert(block_data(entries).subrange(off, off + img.len()) =~= b.subrange(off, off + img.len()));
}

/// Once a non-empty key has been added, the builder's first key never changes.
pub proof fn lemma_builder_first_key_stable(entries: Seq<(Seq<u8>, Seq<u8>)>, i: int)
    requires
        1 <= i <= entries.len(),
        entries[0].0.len() > 0,
    ensures
        builder_first_key(entries.take(i)) == entries[0].0,
    decreases i,
{
    reveal(builder_first_key);
    let t = entries.take(i);
    assert(t.drop_last() =~= entries.take(i - 1));
    assert(t.last() == entries[i - 1]);
    if i == 1 {
        assert(entries.take(0) =~= Seq::<(Seq<u8>, Seq<u8>)>::empty());
        assert(builder_first_key(entries.take(0)).len() == 0);
    } else {
        lemma_builder_first_key_stable(entries, i - 1);
    }
}

/// Appends `x` in big-endian order.
pub fn put_u16(buf: &mut Vec<u8>, x: u16)
    ensures
        final(buf)@ == old(buf)@ + u16_be(x as nat),
{
    buf.push((x / 256) as u8);
    buf.push((x % 256) as u8);
    assert(final(buf)@ =~= old(buf)@ + u16_be(x as nat));
}

/// Appends the bytes of `s`.
pub fn put_slice(buf: &mut Vec<u8>, s: &[u8])
    ensures
        final(buf)@ == old(buf)@ + s@,
{
    let ghost start = buf@;
    let mut i: usize = 0;
    while i < s.len()
        invariant
            i <= s@.len(),
            buf@ == start + s@.subrange(0, i as int),
        decreases s.len() - i,
    {
        buf.push(s[i]);
        i = i + 1;
        assert(buf@ =~= start + s@.subrange(0, i as int));
    }
    assert(s@.subrange(0, s@.len() as int) =~= s@);
}

/// A fresh vector holding the bytes of `s`.
pub fn copy_bytes(s: &[u8]) -> (v: Vec<u8>)
    ensures
        v@ == s@,
{
    let mut v = Vec::new();
    put_slice(&mut v, s);
    assert(v@ =~= s@);
    v
}

/// Reads the big-endian `u16` at `pos`.
pub fn get_u16(buf: &[u8], pos: usize) -> (r: u16)
    requires
        pos + 1 < buf@.len(),
    ensures
        r as nat == be_value(buf@[pos as int], buf@[pos + 1]),
{
    (buf[pos] as u16) * 256 + (buf[pos + 1] as u16)
}

/// A block whose first key is not empty decodes back: a reader can decompress
/// every entry against that key.
pub proof fn lemma_nonempty_first_key_decodable(entries: Seq<(Seq<u8>, Seq<u8>)>)
    requires
        entries.len() > 0,
        entries[0].0.len() > 0,
    ensures
        decodable(entries),
{
    assert forall|i: int| 0 <= i < entries.len() implies #[trigger] stored_overlap(entries, i)
        <= entries[0].0.len() by {
        let fk = builder_first_key(entries.take(i));
        crate::key::lemma_common_prefix_len(fk, entries[i].0);
        if i == 0 {
            assert(entries.take(0) =~= Seq::<(Seq<u8>, Seq<u8>)>::empty());
            lemma_empty_block();
        } else {
            lemma_builder_first_key_stable(entries, i);
        }
    }
}

proof fn lemma_offsets_image_len(entries: Seq<(Seq<u8>, Seq<u8>)>)
    ensures
        offsets_image(entries).len() == 2 * entries.len(),
    decreases entries.len(),
{
    reveal(offsets_image);
    if entries.len() > 0 {
        lemma_offsets_image_len(entries.drop_last());
    }
}

/// The size a block builder reports is the length of the block it builds, once
/// encoded: the entry count, one offset per entry and the entries.
pub proof fn lemma_estimated_size_is_encoded_len(entries: Seq<(Seq<u8>, Seq<u8>)>)
    ensures
        estimated_size_of(entries) == block_image(entries).len(),
{
    lemma_offsets_image_len(entries);
}

/// The entries a block builder holds after a series of adds, each kept when the
/// builder accepts it.
pub open spec fn accepted_entries(block_size: nat, adds: Seq<(Seq<u8>, Seq<u8>)>) -> Seq<(Seq<u8>, Seq<u8>)>
    decreases adds.len(),
{
    if adds.len() == 0 {
        Seq::empty()
    } else {
        let before = accepted_entries(block_size, adds.drop_last());
        if builder_accepts(before, block_size, adds.last().0, adds.last().1) {
            before.push(adds.last())
        } else {
            before
        }
    }
}

/// No add of the series was accepted (returned true) by the builder it was offered to.
pub open spec fn none_accepted(block_size: nat, adds: Seq<(Seq<u8>, Seq<u8>)>) -> bool {
    forall|i: int|
        0 <= i < adds.len() ==> !builder_accepts(
            accepted_entries(block_size, adds.take(i)),
            block_size,
            (#[trigger] adds[i]).0,
            adds[i].1,
        )
}

/// A block builder is empty after a series of adds exactly when none of them was
/// accepted (returned true).
pub proof fn lemma_empty_iff_none_accepted(block_size: nat, adds: Seq<(Seq<u8>, Seq<u8>)>)
    ensures
        accepted_entries(block_size, adds).len() == 0 <==> none_accepted(block_size, adds),
    decreases adds.len(),
{
    if adds.len() > 0 {
        let front = adds.drop_last();
        lemma_empty_iff_none_accepted(block_size, front);
        let n = adds.len() - 1;
        assert(adds.take(n) =~= front);
        assert forall|i: int| 0 <= i < n implies adds.take(i) =~= front.take(i) && #[trigger] adds[i] == front[i] by {}
        if accepted_entries(block_size, adds).len() == 0 {
            assert(accepted_entries(block_size, front).len() == 0);
            assert forall|i: int| 0 <= i < adds.len() implies !builder_accepts(
                accepted_entries(block_size, adds.take(i)),
                block_size,
                (#[trigger] adds[i]).0,
                adds[i].1,
            ) by {
                if i < n {
                    assert(adds.take(i) =~= front.take(i));
                    assert(adds[i] == front[i]);
                }
            }
        } else {
            if accepted_entries(block_size, front).len() != 0 {
                let i = choose|i: int| 0 <= i < front.len() && builder_accepts(
                    accepted_entries(block_size, front.take(i)),
                    block_size,
                    (#[trigger] front[i]).0,
                    front[i].1,
                );
                assert(adds.take(i) =~= front.take(i));
                assert(adds[i] == front[i]);
            } else {
                assert(adds[n] == adds.last());
            }
        }
    }
}

/// Why a buffer is not a block.
#[derive(Debug, PartialEq, Eq)]
pub enum BlockDecodeError {
    /// Shorter than the entry count.
    FooterTruncated,
    /// The entry count is zero.
    NoEntries,
    /// Shorter than the offset table the entry count announces.
    OffsetTableTruncated,
    /// The first entry does not start at offset zero.
    FirstOffsetNotZero,
    /// The entry offsets are not strictly increasing.
    OffsetsNotIncreasing,
    /// An entry reaches past the data section or the buffer.
    EntryOutOfRange,
    /// An entry is shorter than its key and value length fields.
    EntryHeaderTruncated,
    /// An entry is shorter than its key and value length fields say.
    EntryLengthTruncated,
    /// An entry's value length does not match its size.
    ValueLengthInvalid,
    /// An entry shares more leading bytes with the block's first key than that key has.
    OverlapBeyondFirstKey,
    /// The entries do not fit one block.
    BlockFull,
}

/// The entry count a buffer's footer announces.
pub open spec fn footer_count(data: Seq<u8>) -> nat {
    be_value(data[data.len() - 2], data[data.len() - 1])
}

/// Where the data section of a buffer ends and its offset table starts.
pub open spec fn footer_data_end(data: Seq<u8>) -> int {
    data.len() - SIZEOF_U16 - SIZEOF_U16 * footer_count(data)
}

/// Offset `i` of a buffer's offset table.
pub open spec fn raw_offset(data: Seq<u8>, i: int) -> nat {
    let p = footer_data_end(data) + SIZEOF_U16 * i;
    be_value(data[p], data[p + 1])
}

/// Where entry `i` of a buffer ends: the next entry's offset, or the end of the
/// data section.
pub open spec fn raw_entry_end(data: Seq<u8>, i: int) -> int {
    if i + 1 < footer_count(data) {
        raw_offset(data, i + 1) as int
    } else {
        footer_data_end(data)
    }
}

/// Overlap field of an entry `overlap | rest length | rest of key | value length | value`:
/// how many leading bytes its key shares with the block's first key.
pub open spec fn entry_overlap_field(entry: Seq<u8>) -> nat {
    be_value(entry[0], entry[1])
}

/// Length of the rest of an entry's key, after the shared prefix.
pub open spec fn entry_rest_len(entry: Seq<u8>) -> nat {
    be_value(entry[2], entry[3])
}

/// Value length of an entry.
pub open spec fn entry_value_len(entry: Seq<u8>) -> nat {
    let r = entry_rest_len(entry) as int;
    be_value(entry[r + 4], entry[r + 5])
}

/// Why an entry is malformed, read against the block's first key `first_key`, if it is.
pub open spec fn entry_error(entry: Seq<u8>, first_key: Seq<u8>) -> Option<BlockDecodeError> {
    if entry.len() < 4 {
        Some(BlockDecodeError::EntryHeaderTruncated)
    } else if entry_rest_len(entry) + 6 > entry.len() {
        Some(BlockDecodeError::EntryLengthTruncated)
    } else if entry_rest_len(entry) + 6 + entry_value_len(entry) != entry.len() {
        Some(BlockDecodeError::ValueLengthInvalid)
    } else if entry_overlap_field(entry) > first_key.len() {
        Some(BlockDecodeError::OverlapBeyondFirstKey)
    } else {
        None
    }
}

/// The key and value of a well-formed entry, its key rebuilt from the shared prefix of
/// `first_key` and the rest stored in the entry.
pub open spec fn decoded_entry(entry: Seq<u8>, first_key: Seq<u8>) -> (Seq<u8>, Seq<u8>) {
    let r = entry_rest_len(entry) as int;
    (
        first_key.take(entry_overlap_field(entry) as int) + entry.subrange(4, 4 + r),
        entry.subrange(6 + r, entry.len() as int),
    )
}

/// The key a reader decompresses against once `acc` were decoded: the first decoded
/// key, or the empty key before any.
pub open spec fn decoded_first_key(acc: Seq<(Seq<u8>, Seq<u8>)>) -> Seq<u8> {
    if acc.len() == 0 {
        Seq::empty()
    } else {
        acc[0].0
    }
}

/// Decoding the entries of a buffer from entry `i` on, after `acc` were decoded
/// and added to a block builder of size `U16_MAX`.
pub open spec fn decode_entries_from(data: Seq<u8>, i: int, acc: Seq<(Seq<u8>, Seq<u8>)>) -> Result<
    Seq<(Seq<u8>, Seq<u8>)>,
    BlockDecodeError,
>
    decreases footer_count(data) - i,
{
    if i < 0 || i >= footer_count(data) {
        Ok(acc)
    } else {
        let start = raw_offset(data, i) as int;
        let end = raw_entry_end(data, i);
        if start > end || end > data.len() {
            Err(BlockDecodeError::EntryOutOfRange)
        } else {
            let entry = data.subrange(start, end);
            let first_key = decoded_first_key(acc);
            match entry_error(entry, first_key) {
                Some(e) => Err(e),
                None => {
                    let (key, value) = decoded_entry(entry, first_key);
                    if !builder_accepts(acc, U16_MAX as nat, key, value) {
                        Err(BlockDecodeError::BlockFull)
                    } else {
                        decode_entries_from(data, i + 1, acc.push((key, value)))
                    }
                },
            }
        }
    }
}

/// What decoding a buffer yields: the entries of a buffer in the layout that
/// [`Block::encode`] writes, each key decompressed against the first one, or the
/// first check that fails.
pub open spec fn decode_spec(data: Seq<u8>) -> Result<Seq<(Seq<u8>, Seq<u8>)>, BlockDecodeError> {
    if data.len() < SIZEOF_U16 {
        Err(BlockDecodeError::FooterTruncated)
    } else if footer_count(data) == 0 {
        Err(BlockDecodeError::NoEntries)
    } else if SIZEOF_U16 * footer_count(data) + SIZEOF_U16 > data.len() {
        Err(BlockDecodeError::OffsetTableTruncated)
    } else if raw_offset(data, 0) != 0 {
        Err(BlockDecodeError::FirstOffsetNotZero)
    } else if exists|i: int|
        0 <= i < footer_count(data) - 1 && #[trigger] raw_offset(data, i) >= raw_offset(data, i + 1) {
        Err(BlockDecodeError::OffsetsNotIncreasing)
    } else {
        decode_entries_from(data, 0, Seq::empty())
    }
}

/// Each entry was accepted in turn by a block builder of target size `block_size`:
/// what the entries of a built block satisfy.
pub open spec fn built_under(entries: Seq<(Seq<u8>, Seq<u8>)>, block_size: nat) -> bool {
    forall|i: int|
        0 <= i < entries.len() ==> builder_accepts(
            entries.take(i),
            block_size,
            (#[trigger] entries[i]).0,
            entries[i].1,
        )
}

/// Entry `i`'s offset in the offset table.
proof fn lemma_offsets_image_at(entries: Seq<(Seq<u8>, Seq<u8>)>, i: int)
    requires
        0 <= i < entries.len(),
    ensures
        offsets_image(entries).len() == 2 * entries.len(),
        offsets_image(entries)[2 * i] == u16_be(entry_offset(entries, i))[0],
        offsets_image(entries)[2 * i + 1] == u16_be(entry_offset(entries, i))[1],
    decreases entries.len(),
{
    reveal(offsets_image);
    lemma_offsets_image_len(entries);
    let front = entries.drop_last();
    lemma_offsets_image_len(front);
    if i < entries.len() - 1 {
        lemma_offsets_image_at(front, i);
        assert(front.take(i) =~= entries.take(i));
    } else {
        assert(front =~= entries.take(i));
    }
}

/// A built block holds fewer than 2^16 entries: each takes at least six bytes and all
/// but the last start below offset 2^16.
proof fn lemma_built_count(entries: Seq<(Seq<u8>, Seq<u8>)>, block_size: nat)
    requires
        entries.len() > 0,
        built_under(entries, block_size),
    ensures
        entries.len() <= U16_MAX,
{
    let n = entries.len() as int;
    assert(builder_accepts(entries.take(n - 1), block_size, entries[n - 1].0, entries[n - 1].1));
    lemma_block_data_len(entries.take(n - 1));
}

/// The footer of an encoded block: its entry count and where its data ends.
proof fn lemma_encoded_footer(entries: Seq<(Seq<u8>, Seq<u8>)>)
    requires
        0 < entries.len() <= U16_MAX,
    ensures
        footer_count(block_image(entries)) == entries.len(),
        footer_data_end(block_image(entries)) == block_data(entries).len(),
        block_image(entries).len() == block_data(entries).len() + 2 * entries.len() + 2,
{
    let data = block_image(entries);
    lemma_offsets_image_len(entries);
    lemma_u16_be(entries.len());
    assert(data[data.len() - 2] == u16_be(entries.len())[0]);
    assert(data[data.len() - 1] == u16_be(entries.len())[1]);
}

/// Offset `i` read from an encoded block is entry `i`'s offset.
proof fn lemma_encoded_raw_offset(entries: Seq<(Seq<u8>, Seq<u8>)>, i: int)
    requires
        0 <= i < entries.len() <= U16_MAX,
        entry_offset(entries, i) <= U16_MAX,
    ensures
        raw_offset(block_image(entries), i) == entry_offset(entries, i),
{
    let data = block_image(entries);
    let d = block_data(entries).len() as int;
    lemma_encoded_footer(entries);
    lemma_offsets_image_at(entries, i);
    lemma_u16_be(entry_offset(entries, i));
    assert(data[d + 2 * i] == offsets_image(entries)[2 * i]);
    assert(data[d + 2 * i + 1] == offsets_image(entries)[2 * i + 1]);
}

/// An entry encoded against `enc_key` reads back against `dec_key` when the shared
/// prefix it stores is also a prefix of `dec_key`.
proof fn lemma_entry_reads_back(enc_key: Seq<u8>, dec_key: Seq<u8>, key: Seq<u8>, value: Seq<u8>)
    requires
        key.len() <= U16_MAX,
        value.len() <= U16_MAX,
        common_prefix_len(enc_key, key) <= dec_key.len(),
        dec_key.take(common_prefix_len(enc_key, key) as int) == enc_key.take(
            common_prefix_len(enc_key, key) as int,
        ),
    ensures
        entry_error(entry_image(enc_key, key, value), dec_key) is None,
        decoded_entry(entry_image(enc_key, key, value), dec_key) == (key, value),
{
    let ov = common_prefix_len(enc_key, key);
    crate::key::lemma_common_prefix_len(enc_key, key);
    let e = entry_image(enc_key, key, value);
    let r = (key.len() - ov) as int;
    lemma_u16_be(ov);
    lemma_u16_be(r as nat);
    lemma_u16_be(value.len());
    assert(e[0] == u16_be(ov)[0] && e[1] == u16_be(ov)[1]);
    assert(e[2] == u16_be(r as nat)[0] && e[3] == u16_be(r as nat)[1]);
    assert(e[r + 4] == u16_be(value.len())[0] && e[r + 5] == u16_be(value.len())[1]);
    assert(e.subrange(4, 4 + r) =~= key.skip(ov as int));
    assert(e.subrange(6 + r, e.len() as int) =~= value);
    assert(dec_key.take(ov as int) =~= key.take(ov as int)) by {
        assert forall|j: int| 0 <= j < ov implies dec_key.take(ov as int)[j] == key[j] by {
            assert(enc_key.take(ov as int)[j] == enc_key[j]);
        }
    }
    assert(key.take(ov as int) + key.skip(ov as int) =~= key);
}

/// Entry `i` of an encoded block lies between its offset and the next, and reads back
/// as entry `i` against the first key decoded before it.
proof fn lemma_encoded_entry(entries: Seq<(Seq<u8>, Seq<u8>)>, block_size: nat, i: int)
    requires
        0 <= i < entries.len(),
        block_size <= U16_MAX,
        built_under(entries, block_size),
        decodable(entries),
    ensures
        ({
            let data = block_image(entries);
            let start = raw_offset(data, i) as int;
            let end = raw_entry_end(data, i);
            let fk = decoded_first_key(entries.take(i));
            &&& start <= end <= data.len()
            &&& entry_error(data.subrange(start, end), fk) is None
            &&& decoded_entry(data.subrange(start, end), fk) == entries[i]
            &&& builder_accepts(entries.take(i), U16_MAX as nat, entries[i].0, entries[i].1)
        }),
{
    let data = block_image(entries);
    let n = entries.len() as int;
    let (key, value) = entries[i];
    lemma_built_count(entries, block_size);
    lemma_encoded_footer(entries);
    assert(builder_accepts(entries.take(i), block_size, key, value));
    lemma_encoded_raw_offset(entries, i);
    lemma_entry_at(entries, i);
    let start = entry_offset(entries, i) as int;
    let end = entry_offset(entries, i + 1) as int;
    if i + 1 < n {
        assert(builder_accepts(entries.take(i + 1), block_size, entries[i + 1].0, entries[i + 1].1));
        lemma_encoded_raw_offset(entries, i + 1);
    } else {
        assert(entries.take(i + 1) =~= entries);
    }
    assert(raw_entry_end(data, i) == end);
    let enc_key = builder_first_key(entries.take(i));
    let dec_key = decoded_first_key(entries.take(i));
    let img = entry_image(enc_key, key, value);
    assert(data.subrange(start, end) =~= block_data(entries).subrange(start, end));
    assert(data.subrange(start, end) == img);
    let ov = common_prefix_len(enc_key, key);
    assert(ov == stored_overlap(entries, i));
    assert(ov <= entries[0].0.len());
    if i == 0 {
        assert(entries.take(0) =~= Seq::<(Seq<u8>, Seq<u8>)>::empty());
        lemma_empty_block();
        assert(ov == 0);
        assert(dec_key.take(0) =~= enc_key.take(0));
    } else {
        assert(dec_key == entries[0].0);
        if entries[0].0.len() > 0 {
            lemma_builder_first_key_stable(entries, i);
        } else {
            assert(dec_key.take(0) =~= enc_key.take(0));
        }
    }
    lemma_entry_reads_back(enc_key, dec_key, key, value);
}

proof fn lemma_decode_encoded_from(entries: Seq<(Seq<u8>, Seq<u8>)>, block_size: nat, i: int)
    requires
        0 <= i <= entries.len(),
        0 < entries.len(),
        block_size <= U16_MAX,
        built_under(entries, block_size),
        decodable(entries),
    ensures
        decode_entries_from(block_image(entries), i, entries.take(i)) == Ok::<
            Seq<(Seq<u8>, Seq<u8>)>,
            BlockDecodeError,
        >(entries),
    decreases entries.len() - i,
{
    lemma_built_count(entries, block_size);
    lemma_encoded_footer(entries);
    if i == entries.len() {
        assert(entries.take(i) =~= entries);
    } else {
        lemma_encoded_entry(entries, block_size, i);
        assert(entries.take(i).push(entries[i]) =~= entries.take(i + 1));
        lemma_decode_encoded_from(entries, block_size, i + 1);
    }
}

/// A block that a builder with a target size of at most `U16_MAX` built, and whose
/// keys can be decompressed against its first key, decodes from its encoding to the
/// entries it holds.
pub proof fn lemma_encoded_block_decodes(entries: Seq<(Seq<u8>, Seq<u8>)>, block_size: nat)
    requires
        entries.len() > 0,
        block_size <= U16_MAX,
        built_under(entries, block_size),
        decodable(entries),
    ensures
        decode_spec(block_image(entries)) == Ok::<Seq<(Seq<u8>, Seq<u8>)>, BlockDecodeError>(
            entries,
        ),
{
    let data = block_image(entries);
    let n = entries.len() as int;
    lemma_built_count(entries, block_size);
    lemma_encoded_footer(entries);
    assert(builder_accepts(entries.take(0), block_size, entries[0].0, entries[0].1));
    lemma_encoded_raw_offset(entries, 0);
    assert(entries.take(0) =~= Seq::<(Seq<u8>, Seq<u8>)>::empty());
    lemma_empty_block();
    assert(raw_offset(data, 0) == 0);
    assert forall|i: int| 0 <= i < n - 1 implies #[trigger] raw_offset(data, i) < raw_offset(
        data,
        i + 1,
    ) by {
        assert(builder_accepts(entries.take(i), block_size, entries[i].0, entries[i].1));
        assert(builder_accepts(entries.take(i + 1), block_size, entries[i + 1].0, entries[i + 1].1));
        lemma_encoded_raw_offset(entries, i);
        lemma_encoded_raw_offset(entries, i + 1);
        lemma_entry_at(entries, i);
    }
    assert(!exists|i: int|
        0 <= i < footer_count(data) - 1 && #[trigger] raw_offset(data, i) >= raw_offset(data, i + 1));
    lemma_decode_encoded_from(entries, block_size, 0);
    assert(decode_spec(data) == decode_entries_from(data, 0, entries.take(0)));
}

/// A sealed block of sorted key-value entries.
pub struct Block {
    pub(crate) data: Vec<u8>,
    pub(crate) offsets: Vec<u16>,
    entries: Ghost<Seq<(Seq<u8>, Seq<u8>)>>,
}

impl View for Block {
    type V = Seq<(Seq<u8>, Seq<u8>)>;

    /// The entries the block holds, in order.
    closed spec fn view(&self) -> Seq<(Seq<u8>, Seq<u8>)> {
        self.entries@
    }
}

impl Block {
    /// The data and offsets are the encoding of the entries.
    #[verifier::type_invariant]
    pub(crate) closed spec fn inv(self) -> bool {
        &&& well_sized(self.entries@)
        &&& self.data@ == block_data(self.entries@)
        &&& self.offsets@.len() == self.entries@.len()
        &&& forall|i: int|
            0 <= i < self.offsets@.len() ==> #[trigger] self.offsets@[i] == entry_offset(
                self.entries@,
                i,
            )
    }
}

impl Block {
    /// Decodes a block from the layout [`Block::encode`] writes; the input must be well
    /// formed (see [`decode_spec`]).
    pub fn decode(data: &[u8]) -> (b: Block)
        requires
            decode_spec(data@) is Ok,
        ensures
            decode_spec(data@) == Ok::<_, BlockDecodeError>(b@),
    {
        match Block::decode_checked(data) {
            Ok(b) => b,
            Err(_) => {
                proof {
                    assert(false);
                }
                BlockBuilder::new(0).build()
            },
        }
    }

    /// Decodes a block, rejecting a malformed buffer with the first check it fails.
    pub fn decode_checked(data: &[u8]) -> (r: Result<Block, BlockDecodeError>)
        ensures
            match r {
                Ok(b) => decode_spec(data@) == Ok::<_, BlockDecodeError>(b@),
                Err(e) => decode_spec(data@) == Err::<Seq<(Seq<u8>, Seq<u8>)>, _>(e),
            },
    {
        let mut builder = BlockBuilder::new(U16_MAX);
        if data.len() < SIZEOF_U16 {
            return Err(BlockDecodeError::FooterTruncated);
        }
        let n = get_u16(data, data.len() - 2) as usize;
        if n == 0 {
            return Err(BlockDecodeError::NoEntries);
        }
        let footer_size = n * SIZEOF_U16 + SIZEOF_U16;
        if footer_size > data.len() {
            return Err(BlockDecodeError::OffsetTableTruncated);
        }
        let data_end = data.len() - footer_size;
        let mut offsets: Vec<u16> = Vec::new();
        let mut k: usize = 0;
        while k < n
            invariant
                n == footer_count(data@),
                data_end == footer_data_end(data@),
                data_end + SIZEOF_U16 * n + SIZEOF_U16 == data@.len(),
                data@.len() <= usize::MAX,
                k <= n,
                offsets@.len() == k,
                forall|j: int| 0 <= j < k ==> #[trigger] offsets@[j] as nat == raw_offset(data@, j),
            decreases n - k,
        {
            assert(data_end + 2 * k + 1 < data@.len());
            offsets.push(get_u16(data, data_end + 2 * k));
            k = k + 1;
        }
        if offsets[0] != 0 {
            return Err(BlockDecodeError::FirstOffsetNotZero);
        }
        let mut w: usize = 0;
        while w + 1 < n
            invariant
                n == footer_count(data@),
                n == offsets@.len(),
                data@.len() >= SIZEOF_U16,
                n > 0,
                SIZEOF_U16 * n + SIZEOF_U16 <= data@.len(),
                raw_offset(data@, 0) == 0,
                w < n,
                forall|j: int| 0 <= j < n ==> #[trigger] offsets@[j] as nat == raw_offset(data@, j),
                forall|j: int| 0 <= j < w ==> #[trigger] raw_offset(data@, j) < raw_offset(data@, j + 1),
            decreases n - w,
        {
            if offsets[w] >= offsets[w + 1] {
                assert(raw_offset(data@, w as int) >= raw_offset(data@, w + 1));
                return Err(BlockDecodeError::OffsetsNotIncreasing);
            }
            w = w + 1;
        }
        assert(decode_spec(data@) == decode_entries_from(data@, 0, Seq::empty()));
        let mut first_key: Vec<u8> = Vec::new();
        let mut idx: usize = 0;
        while idx < n
            invariant
                n == footer_count(data@),
                n == offsets@.len(),
                data_end == footer_data_end(data@),
                idx <= n,
                forall|j: int| 0 <= j < n ==> #[trigger] offsets@[j] as nat == raw_offset(data@, j),
                builder.wf(),
                builder.target_size() == U16_MAX,
                decode_spec(data@) == decode_entries_from(data@, idx as int, builder@),
                first_key@ == decoded_first_key(builder@),
                builder@.len() == idx,
            decreases n - idx,
        {
            let entry_start = offsets[idx] as usize;
            let entry_end = if idx + 1 < n {
                offsets[idx + 1] as usize
            } else {
                data_end
            };
            if entry_start > entry_end || entry_end > data.len() {
                return Err(BlockDecodeError::EntryOutOfRange);
            }
            let entry = &data[entry_start..entry_end];
            if entry.len() < 4 {
                return Err(BlockDecodeError::EntryHeaderTruncated);
            }
            let overlap = get_u16(entry, 0) as usize;
            let rest_len = get_u16(entry, 2) as usize;
            let key_end = 2 * SIZEOF_U16 + rest_len;
            let value_len_end = key_end + SIZEOF_U16;
            if value_len_end > entry.len() {
                return Err(BlockDecodeError::EntryLengthTruncated);
            }
            let value_len = get_u16(entry, key_end) as usize;
            let entry_len = value_len_end + value_len;
            if entry_len != entry.len() {
                return Err(BlockDecodeError::ValueLengthInvalid);
            }
            if overlap > first_key.len() {
                return Err(BlockDecodeError::OverlapBeyondFirstKey);
            }
            let mut key: Vec<u8> = Vec::new();
            put_slice(&mut key, &first_key.as_slice()[0..overlap]);
            put_slice(&mut key, &entry[2 * SIZEOF_U16..key_end]);
            proof {
                assert(key@ =~= decoded_entry(entry@, first_key@).0);
                assert(entry@.subrange(value_len_end as int, entry_len as int) =~= decoded_entry(
                    entry@,
                    first_key@,
                ).1);
            }
            let success = builder.add(key.as_slice(), &entry[value_len_end..entry_len]);
            if !success {
                return Err(BlockDecodeError::BlockFull);
            }
            if idx == 0 {
                first_key = key;
            }
            idx = idx + 1;
        }
        Ok(builder.build())
    }

    /// Number of entries in the block.
    pub fn num_entries(&self) -> (r: usize)
        ensures
            r == self@.len(),
    {
        proof {
            use_type_invariant(self);
        }
        self.offsets.len()
    }

    /// Encodes the block: its data section, then its offsets, then the number of
    /// entries, each offset and the count as a big-endian `u16`.
    pub fn encode(&self) -> (r: Vec<u8>)
        ensures
            r@ == block_image(self@),
    {
        proof {
            use_type_invariant(self);
        }
        let ghost entries = self.entries@;
        let n = self.offsets.len();
        let mut out: Vec<u8> = Vec::new();
        let mut i: usize = 0;
        let mut j: usize = 1;
        proof {
            if n > 0 {
                assert(entries.take(0) =~= Seq::<(Seq<u8>, Seq<u8>)>::empty());
                lemma_empty_block();
                assert(self.offsets@[0] == entry_offset(entries, 0));
            }
        }
        while j < n
            invariant
                self.inv(),
                entries == self.entries@,
                n == self.offsets@.len(),
                1 <= j <= n || (n == 0 && j == 1),
                n > 0 ==> i == entry_offset(entries, j - 1),
                i <= self.data@.len(),
                out@ == self.data@.subrange(0, i as int),
            decreases n - j,
        {
            proof {
                lemma_entry_at(entries, j - 1);
                lemma_block_data_prefix(entries, j - 1);
                assert(self.offsets@[j as int] == entry_offset(entries, j as int));
            }
            let end = self.offsets[j] as usize;
            put_slice(&mut out, &self.data[i..end]);
            i = end;
            j = j + 1;
            assert(out@ =~= self.data@.subrange(0, i as int));
        }
        put_slice(&mut out, &self.data[i..self.data.len()]);
        assert(out@ =~= block_data(entries));
        proof {
            lemma_empty_block();
            assert(entries.take(0) =~= Seq::<(Seq<u8>, Seq<u8>)>::empty());
            assert(out@ =~= block_data(entries) + offsets_image(entries.take(0)));
        }
        let mut k: usize = 0;
        while k < n
            invariant
                n == self.offsets@.len(),
                n == entries.len(),
                forall|i: int| 0 <= i < n ==> #[trigger] self.offsets@[i] == entry_offset(entries, i),
                k <= n,
                out@ == block_data(entries) + offsets_image(entries.take(k as int)),
            decreases n - k,
        {
            let off = self.offsets[k];
            put_u16(&mut out, off);
            proof {
                lemma_offsets_image_step(entries, k as int);
                assert(self.offsets@[k as int] == entry_offset(entries, k as int));
            }
            k = k + 1;
            assert(out@ =~= block_data(entries) + offsets_image(entries.take(k as int)));
        }
        proof {
            assert(entries.take(n as int) =~= entries);
            lemma_block_data_len(entries);
            if n > 0 {
                lemma_entry_at(entries, n - 1);
                lemma_block_data_len(entries.take(n - 1));
            }
        }
        put_u16(&mut out, n as u16);
        out
    }
}

} // verus!
