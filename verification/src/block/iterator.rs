use std::sync::Arc;

use super::{
    Block, SIZEOF_U16, be_value, builder_first_key, decodable, entry_image, entry_offset,
    get_u16, keys_sorted, lemma_builder_first_key_stable, lemma_empty_block, lemma_entry_at, lemma_u16_be,
    put_slice, stored_overlap,
};
use crate::key::{key_less, lemma_common_prefix_len, lemma_lex_le_lt_trans, lex_lt};
use vstd::prelude::*;

verus! {

/// Iterates on a block.
pub struct BlockIterator {
    /// The internal `Block`, wrapped by an `Arc`
    block: Arc<Block>,
    /// The current key, empty represents the iterator is invalid
    key: Vec<u8>,
    /// the current value range in the block.data, corresponds to the current key
    value_range: (usize, usize),
    /// Current index of the key-value pair, should be in range of [0, num_of_elements)
    idx: usize,
    /// The first key in the block
    first_key: Vec<u8>,
}

/// Where a call of `next` leaves an iterator over `n` entries that was at index `i`:
/// at the next entry, or exhausted where it was once there is none.
pub open spec fn next_position(n: int, i: int) -> (int, bool) {
    if i + 1 < n {
        (i + 1, true)
    } else {
        (i, false)
    }
}

/// Where an iterator over `n` entries stands after `j` calls of `next` from the first.
pub open spec fn position_after_nexts(n: int, j: nat) -> (int, bool)
    decreases j,
{
    if j == 0 {
        (0, true)
    } else {
        next_position(n, position_after_nexts(n, (j - 1) as nat).0)
    }
}

/// From the first of `n` entries, `j` calls of `next` leave a block iterator at entry
/// `j` while `j < n`, so each entry is visited in turn, and exhausted from `n` calls on.
pub proof fn lemma_nexts_visit_entries_in_order(n: int, j: nat)
    requires
        n > 0,
    ensures
        position_after_nexts(n, j) == if j < n {
            (j as int, true)
        } else {
            (n - 1, false)
        },
    decreases j,
{
    if j > 0 {
        lemma_nexts_visit_entries_in_order(n, (j - 1) as nat);
    }
}

impl BlockIterator {
    /// The entries of the block being iterated.
    pub closed spec fn entries(&self) -> Seq<(Seq<u8>, Seq<u8>)> {
        (*self.block)@
    }

    /// Index of the entry the iterator was last positioned at.
    pub closed spec fn index(&self) -> int {
        self.idx as int
    }

    /// The current key; empty once the iterator ran past the end.
    pub closed spec fn current_key(&self) -> Seq<u8> {
        self.key@
    }

    /// The current value; empty once the iterator ran past the end.
    pub closed spec fn current_value(&self) -> Seq<u8> {
        self.block.data@.subrange(self.value_range.0 as int, self.value_range.1 as int)
    }

    /// The iterator stands at entry `i`.
    pub open spec fn positioned_at(&self, i: int) -> bool {
        &&& 0 <= i < self.entries().len()
        &&& self.index() == i
        &&& self.current_key() == self.entries()[i].0
        &&& self.current_value() == self.entries()[i].1
    }

    /// The iterator stands at `pos`: at entry `pos.0`, positioned there when `pos.1`
    /// holds and exhausted otherwise.
    pub open spec fn stands_at(&self, pos: (int, bool)) -> bool {
        &&& self.index() == pos.0
        &&& if pos.1 {
            self.positioned_at(pos.0)
        } else {
            self.exhausted()
        }
    }

    /// The iterator ran past the last entry.
    pub open spec fn exhausted(&self) -> bool {
        &&& self.current_key().len() == 0
        &&& self.current_value().len() == 0
    }

    /// The iterator's state is consistent with its block.
    pub closed spec fn wf(&self) -> bool {
        &&& self.entries().len() > 0
        &&& decodable(self.entries())
        &&& self.first_key@ == self.entries()[0].0
        &&& self.idx < self.entries().len()
        &&& self.value_range.0 <= self.value_range.1 <= self.block.data@.len()
        &&& (self.positioned_at(self.idx as int) || self.exhausted())
    }

    fn new(block: Arc<Block>) -> (r: Self)
        requires
            block@.len() > 0,
            decodable(block@),
        ensures
            r.wf(),
            r.entries() == block@,
            r.exhausted(),
            r.index() == 0,
    {
        let mut iter = BlockIterator {
            block,
            key: Vec::new(),
            value_range: (0, 0),
            idx: 0,
            first_key: Vec::new(),
        };
        proof {
            use_type_invariant(&*iter.block);
            assert(iter.current_value() =~= Seq::<u8>::empty());
        }
        let (first_key, _) = iter.decode_key_at_idx(0);
        iter.first_key = first_key;
        iter
    }

    /// Creates a block iterator and seek to the first entry.
    pub fn create_and_seek_to_first(block: Arc<Block>) -> (r: Self)
        requires
            block@.len() > 0,
            decodable(block@),
        ensures
            r.wf(),
            r.entries() == block@,
            r.positioned_at(0),
    {
        let mut iter = BlockIterator::new(block);
        iter.seek_to_first();
        iter
    }

    /// Decodes the key of entry `idx`; also returns where its value length is stored.
    fn decode_key_at_idx(&self, idx: usize) -> (r: (Vec<u8>, usize))
        requires
            self.entries().len() > 0,
            decodable(self.entries()),
            idx == 0 || self.first_key@ == self.entries()[0].0,
            idx < self.entries().len(),
        ensures
            r.0@ == self.entries()[idx as int].0,
            r.1 + SIZEOF_U16 + self.entries()[idx as int].1.len() <= self.block.data@.len(),
            be_value(self.block.data@[r.1 as int], self.block.data@[r.1 + 1])
                == self.entries()[idx as int].1.len(),
            self.block.data@.subrange(
                r.1 + SIZEOF_U16,
                r.1 + SIZEOF_U16 + self.entries()[idx as int].1.len(),
            ) == self.entries()[idx as int].1,
    {
        proof {
            use_type_invariant(&*self.block);
        }
        let ghost entries = self.entries();
        let ghost data = self.block.data@;
        let ghost key = entries[idx as int].0;
        let ghost value = entries[idx as int].1;
        let ghost fk = builder_first_key(entries.take(idx as int));
        let ghost ov = stored_overlap(entries, idx as int);
        let ghost img = entry_image(fk, key, value);
        let ghost off = entry_offset(entries, idx as int) as int;
        proof {
            lemma_entry_at(entries, idx as int);
            lemma_common_prefix_len(fk, key);
            lemma_u16_be(ov);
            lemma_u16_be((key.len() - ov) as nat);
            lemma_u16_be(value.len());
            assert(self.block.offsets@[idx as int] == entry_offset(entries, idx as int));
            assert(data.subrange(off, off + img.len()) == img);
            assert(data[off] == img[0]);
            assert(data[off + 1] == img[1]);
            assert(data[off + 2] == img[2]);
            assert(data[off + 3] == img[3]);
        }
        let offset = self.block.offsets[idx] as usize;
        let overlap = get_u16(self.block.data.as_slice(), offset) as usize;
        let rest_len = get_u16(self.block.data.as_slice(), offset + 2) as usize;
        let mut decoded: Vec<u8> = Vec::new();
        proof {
            if idx == 0 {
                assert(entries.take(0) =~= Seq::<(Seq<u8>, Seq<u8>)>::empty());
                lemma_empty_block();
            } else if entries[0].0.len() > 0 {
                lemma_builder_first_key_stable(entries, idx as int);
            }
            assert(overlap <= entries[0].0.len());
        }
        if overlap > 0 {
            put_slice(&mut decoded, &self.first_key.as_slice()[0..overlap]);
        }
        let key_end = offset + 4 + rest_len;
        proof {
            assert(data.subrange(off + 4, key_end as int) =~= img.subrange(4, 4 + rest_len));
            assert(img.subrange(4, 4 + rest_len) =~= key.skip(ov as int));
        }
        put_slice(&mut decoded, &self.block.data.as_slice()[offset + 4..key_end]);
        proof {
            assert forall|j: int| 0 <= j < ov implies fk[j] == key[j] by {}
            if overlap > 0 {
                assert(fk =~= entries[0].0);
            }
            assert(decoded@ =~= key);
            let p = key_end as int - off;
            assert(data[key_end as int] == img[p]);
            assert(data[key_end + 1] == img[p + 1]);
            assert(data.subrange(key_end + 2, key_end + 2 + value.len()) =~= img.subrange(
                p + 2,
                p + 2 + value.len(),
            ));
        }
        (decoded, key_end)
    }

    fn seek_to_idx(&mut self, idx: usize)
        requires
            old(self).wf(),
            idx < old(self).entries().len(),
        ensures
            final(self).wf(),
            final(self).entries() == old(self).entries(),
            final(self).positioned_at(idx as int),
    {
        let (key, value_len_offset) = self.decode_key_at_idx(idx);
        assert(self.block.data.len() == self.block.data@.len());
        let value_offset = value_len_offset + 2;
        let value_len = get_u16(self.block.data.as_slice(), value_len_offset) as usize;
        self.key = key;
        self.idx = idx;
        self.value_range = (value_offset, value_offset + value_len);
    }

    /// Creates a block iterator and seek to the first key that >= `key`.
    pub fn create_and_seek_to_key(block: Arc<Block>, key: &[u8]) -> (r: Self)
        requires
            block@.len() > 0,
            decodable(block@),
        ensures
            r.wf(),
            r.entries() == block@,
            seek_result(r, block@, key@, 0),
    {
        let mut iter = BlockIterator::create_and_seek_to_first(block);
        iter.seek_to_key(key);
        iter
    }

    /// Returns the key of the current entry.
    pub fn key(&self) -> (r: &[u8])
        requires
            self.wf(),
        ensures
            r@ == self.current_key(),
    {
        self.key.as_slice()
    }

    /// Returns the value of the current entry.
    pub fn value(&self) -> (r: &[u8])
        requires
            self.wf(),
        ensures
            r@ == self.current_value(),
    {
        &self.block.data.as_slice()[self.value_range.0..self.value_range.1]
    }

    /// Returns true if the iterator is valid: its current key is not empty.
    pub fn is_valid(&self) -> (r: bool)
        requires
            self.wf(),
        ensures
            r == (self.current_key().len() > 0),
    {
        self.key.len() > 0
    }

    fn invalidate(&mut self)
        requires
            old(self).wf(),
        ensures
            final(self).wf(),
            final(self).entries() == old(self).entries(),
            final(self).index() == old(self).index(),
            final(self).exhausted(),
    {
        self.key = Vec::new();
        self.value_range = (0, 0);
        assert(self.current_value() =~= Seq::<u8>::empty());
    }

    /// Seeks to the first key in the block.
    pub fn seek_to_first(&mut self)
        requires
            old(self).wf(),
        ensures
            final(self).wf(),
            final(self).entries() == old(self).entries(),
            final(self).positioned_at(0),
    {
        proof {
            use_type_invariant(&*self.block);
        }
        if self.block.offsets.len() == 0 {
            self.invalidate();
            return;
        }
        self.seek_to_idx(0);
    }

    /// Move to the next key in the block; past the last one the iterator is exhausted.
    pub fn next(&mut self)
        requires
            old(self).wf(),
        ensures
            final(self).wf(),
            final(self).entries() == old(self).entries(),
            old(self).index() + 1 < old(self).entries().len() ==> final(self).positioned_at(
                old(self).index() + 1,
            ),
            old(self).index() + 1 >= old(self).entries().len() ==> final(self).exhausted()
                && final(self).index() == old(self).index(),
            final(self).stands_at(next_position(old(self).entries().len() as int, old(self).index())),
    {
        proof {
            use_type_invariant(&*self.block);
        }
        let n = self.block.offsets.len();
        if self.idx + 1 >= n {
            self.invalidate();
            return;
        }
        self.seek_to_idx(self.idx + 1);
    }

    /// Seek to the first key that >= `key`: a binary search that assumes the
    /// entries are sorted.
    pub fn seek_to_key(&mut self, key: &[u8])
        requires
            old(self).wf(),
        ensures
            final(self).wf(),
            final(self).entries() == old(self).entries(),
            seek_result(*final(self), old(self).entries(), key@, old(self).index()),
    {
        proof {
            use_type_invariant(&*self.block);
        }
        let ghost entries = self.entries();
        let n = self.block.offsets.len();
        let mut left: usize = 0;
        let mut right: usize = n;
        while left < right
            invariant
                self.wf(),
                entries == self.entries(),
                self.index() == old(self).index(),
                n == entries.len(),
                left <= right <= n,
                left == 0 || lex_lt(entries[left - 1].0, key@),
                right == n || !lex_lt(entries[right as int].0, key@),
            decreases right - left,
        {
            let mid = left + (right - left) / 2;
            let (current_key, _) = self.decode_key_at_idx(mid);
            if key_less(current_key.as_slice(), key) {
                left = mid + 1;
            } else {
                right = mid;
            }
        }
        proof {
            if keys_sorted(entries) {
                assert forall|j: int| 0 <= j < left implies lex_lt(#[trigger] entries[j].0, key@) by {
                    if j < left - 1 {
                        lemma_lex_le_lt_trans(entries[j].0, entries[left - 1].0, key@);
                    }
                }
            }
        }
        if left >= n {
            self.invalidate();
            return;
        }
        self.seek_to_idx(left);
    }
}

/// Where a seek for `key` leaves an iterator over `entries`: at a position `p` with
/// every key before it smaller than `key` as far as the binary search saw (the entry
/// just before `p` is smaller, the entry at `p` is not), or exhausted with the last
/// key smaller than `key` and the index left at `prior`. On sorted entries `p` is
/// the first entry whose key is not smaller than `key`.
pub open spec fn seek_result(
    it: BlockIterator,
    entries: Seq<(Seq<u8>, Seq<u8>)>,
    key: Seq<u8>,
    prior: int,
) -> bool {
    ||| {
        &&& it.positioned_at(it.index())
        &&& (it.index() == 0 || lex_lt(entries[it.index() - 1].0, key))
        &&& !lex_lt(entries[it.index()].0, key)
        &&& keys_sorted(entries) ==> forall|j: int|
            0 <= j < it.index() ==> lex_lt(#[trigger] entries[j].0, key)
    }
    ||| {
        &&& it.exhausted()
        &&& it.index() == prior
        &&& lex_lt(entries[entries.len() - 1].0, key)
        &&& keys_sorted(entries) ==> forall|j: int|
            0 <= j < entries.len() ==> lex_lt(#[trigger] entries[j].0, key)
    }
}

} // verus!
