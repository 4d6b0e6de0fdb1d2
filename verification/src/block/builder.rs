use super::{
    Block, SIZEOF_U16, copy_bytes, U16_MAX, block_data, builder_accepts, builder_first_key, decodable, entry_image,
    lemma_nonempty_first_key_decodable,
    accepted_entries, block_image, built_under, lemma_empty_iff_none_accepted, none_accepted, entry_offset, estimated_size_of, lemma_take_push, lemma_block_data_len, lemma_empty_block, lemma_push_entry, put_slice, put_u16,
    well_sized,
};
use crate::key::{common_prefix_len, common_prefix_length, lemma_common_prefix_len};
use vstd::prelude::*;

verus! {

/// Builds a block.
pub struct BlockBuilder {
    /// Offsets of each key-value entry.
    offsets: Vec<u16>,
    /// All serialized key-value pairs in the block.
    data: Vec<u8>,
    /// The expected block size.
    block_size: usize,
    /// The key later keys are compressed against.
    first_key: Vec<u8>,
    entries: Ghost<Seq<(Seq<u8>, Seq<u8>)>>,
    attempts: Ghost<Seq<(Seq<u8>, Seq<u8>)>>,
}

impl View for BlockBuilder {
    type V = Seq<(Seq<u8>, Seq<u8>)>;

    /// The entries added so far, in order.
    closed spec fn view(&self) -> Seq<(Seq<u8>, Seq<u8>)> {
        self.entries@
    }
}

/// The encoding of one entry, compressed against `first_key`.
fn encode_entry(first_key: &[u8], key: &[u8], value: &[u8]) -> (r: Vec<u8>)
    requires
        key@.len() <= U16_MAX,
        value@.len() <= U16_MAX,
    ensures
        r@ == entry_image(first_key@, key@, value@),
{
    proof {
        lemma_common_prefix_len(first_key@, key@);
    }
    let overlap = common_prefix_length(first_key, key);
    let mut data: Vec<u8> = Vec::new();
    put_u16(&mut data, overlap as u16);
    put_u16(&mut data, (key.len() - overlap) as u16);
    put_slice(&mut data, &key[overlap..key.len()]);
    put_u16(&mut data, value.len() as u16);
    put_slice(&mut data, value);
    assert(data@ =~= entry_image(first_key@, key@, value@));
    data
}

impl BlockBuilder {
    /// The expected block size the builder was created with.
    pub closed spec fn target_size(&self) -> nat {
        self.block_size as nat
    }

    /// Every entry offered to `add` so far, accepted or not, in order.
    pub closed spec fn attempts(&self) -> Seq<(Seq<u8>, Seq<u8>)> {
        self.attempts@
    }

    /// The builder's buffers encode the entries it accepted from those offered so far.
    pub closed spec fn wf(&self) -> bool {
        &&& self.encodes()
        &&& self.entries@ == accepted_entries(self.block_size as nat, self.attempts@)
    }

    /// The builder's buffers encode the entries added so far.
    closed spec fn encodes(&self) -> bool {
        &&& well_sized(self.entries@)
        &&& self.data@ == block_data(self.entries@)
        &&& self.offsets@.len() == self.entries@.len()
        &&& forall|i: int|
            0 <= i < self.offsets@.len() ==> #[trigger] self.offsets@[i] == entry_offset(
                self.entries@,
                i,
            )
        &&& self.first_key@ == builder_first_key(self.entries@)
        &&& self.data@.len() <= 4 * U16_MAX
        &&& built_under(self.entries@, self.block_size as nat)
    }

    /// Creates a new block builder.
    pub fn new(block_size: usize) -> (b: Self)
        ensures
            b.wf(),
            b@ == Seq::<(Seq<u8>, Seq<u8>)>::empty(),
            b.attempts() == Seq::<(Seq<u8>, Seq<u8>)>::empty(),
            b.target_size() == block_size,
    {
        proof {
            lemma_empty_block();
        }
        BlockBuilder {
            offsets: Vec::new(),
            data: Vec::new(),
            block_size,
            first_key: Vec::new(),
            entries: Ghost(Seq::empty()),
            attempts: Ghost(Seq::empty()),
        }
    }

    fn compute_overlap(&self, key: &[u8]) -> (r: u16)
        requires
            self.encodes(),
            key@.len() <= U16_MAX,
        ensures
            r == common_prefix_len(builder_first_key(self@), key@),
    {
        proof {
            lemma_common_prefix_len(self.first_key@, key@);
        }
        common_prefix_length(self.first_key.as_slice(), key) as u16
    }

    /// Adds a key-value pair to the block. Returns false when the block is full,
    /// or when the key, the value or the block's data outgrow a `u16` length.
    pub fn add(&mut self, key: &[u8], value: &[u8]) -> (r: bool)
        requires
            old(self).wf(),
        ensures
            final(self).wf(),
            final(self).target_size() == old(self).target_size(),
            r == builder_accepts(old(self)@, old(self).target_size(), key@, value@),
            r ==> final(self)@ == old(self)@.push((key@, value@)),
            !r ==> final(self)@ == old(self)@,
            final(self).attempts() == old(self).attempts().push((key@, value@)),
    {
        let ghost before = self.attempts@;
        let r = self.try_add(key, value);
        proof {
            assert(before.push((key@, value@)).drop_last() =~= before);
        }
        self.attempts = Ghost(before.push((key@, value@)));
        r
    }

    /// Appends the entry when the builder accepts it.
    fn try_add(&mut self, key: &[u8], value: &[u8]) -> (r: bool)
        requires
            old(self).wf(),
        ensures
            final(self).encodes(),
            final(self).target_size() == old(self).target_size(),
            final(self).attempts@ == old(self).attempts@,
            r == builder_accepts(old(self)@, old(self).target_size(), key@, value@),
            r ==> final(self)@ == old(self)@.push((key@, value@)),
            !r ==> final(self)@ == old(self)@,
    {
        if key.len() > U16_MAX {
            return false;
        }
        if value.len() > U16_MAX {
            return false;
        }
        proof {
            lemma_block_data_len(self.entries@);
        }
        let entry_size = key.len() + value.len() + SIZEOF_U16 * 3;
        let block_is_full = self.estimated_size() + entry_size > self.block_size;
        if !self.is_empty() && block_is_full {
            return false;
        }
        if self.data.len() > U16_MAX {
            return false;
        }
        self.append_entry(key, value);
        true
    }

    /// Appends an entry the builder accepts.
    fn append_entry(&mut self, key: &[u8], value: &[u8])
        requires
            old(self).encodes(),
            builder_accepts(old(self)@, old(self).target_size(), key@, value@),
        ensures
            final(self).encodes(),
            final(self).target_size() == old(self).target_size(),
            final(self).attempts@ == old(self).attempts@,
            final(self)@ == old(self)@.push((key@, value@)),
    {
        let offset = self.data.len() as u16;
        let ghost old_entries = self.entries@;
        let ghost new_entries = old_entries.push((key@, value@));
        proof {
            lemma_push_entry(old_entries, key@, value@);
            lemma_common_prefix_len(builder_first_key(old_entries), key@);
        }
        let mut image = encode_entry(self.first_key.as_slice(), key, value);
        self.offsets.push(offset);
        self.data.append(&mut image);
        if self.first_key.len() == 0 {
            self.first_key = copy_bytes(key);
        }
        self.entries = Ghost(new_entries);
        proof {
            assert forall|i: int| 0 <= i < new_entries.len() implies builder_accepts(
                new_entries.take(i),
                self.block_size as nat,
                (#[trigger] new_entries[i]).0,
                new_entries[i].1,
            ) by {
                if i < old_entries.len() {
                    lemma_take_push(old_entries, (key@, value@), i);
                } else {
                    assert(new_entries.take(i) =~= old_entries);
                }
            }
            assert forall|i: int| 0 <= i < self.offsets@.len() implies #[trigger] self.offsets@[i]
                == entry_offset(new_entries, i) by {
                assert(entry_offset(new_entries, i) == if i < old_entries.len() {
                    entry_offset(old_entries, i)
                } else {
                    block_data(old_entries).len()
                });
            }
        }
    }

    /// Check if there is no key-value pair in the block: true exactly while no `add`
    /// on this builder has returned true.
    pub fn is_empty(&self) -> (r: bool)
        requires
            self.wf(),
        ensures
            r == (self@.len() == 0),
            r == none_accepted(self.target_size(), self.attempts()),
    {
        proof {
            lemma_empty_iff_none_accepted(self.block_size as nat, self.attempts@);
            lemma_block_data_len(self.entries@);
            if self.entries@.len() == 0 {
                assert(self.entries@ =~= Seq::<(Seq<u8>, Seq<u8>)>::empty());
                lemma_empty_block();
            }
        }
        self.data.len() == 0
    }

    /// Finalize the block. A block whose first key is not empty can be read back by a
    /// block iterator and, built with a target size of at most `U16_MAX`, decoded from
    /// its encoding (see [`crate::block::lemma_encoded_block_decodes`]).
    pub fn build(self) -> (b: Block)
        requires
            self.wf(),
        ensures
            b@ == self@,
            built_under(b@, self.target_size()),
            self@.len() > 0 && self@[0].0.len() > 0 ==> decodable(b@),
    {
        proof {
            if self@.len() > 0 && self@[0].0.len() > 0 {
                lemma_nonempty_first_key_decodable(self@);
            }
        }
        Block { data: self.data, offsets: self.offsets, entries: Ghost(self.entries@) }
    }

    /// The size of the block once encoded: the entry count, the offsets and the data
    /// (see [`crate::block::lemma_estimated_size_is_encoded_len`]).
    pub fn estimated_size(&self) -> (r: usize)
        requires
            self.wf(),
        ensures
            r == estimated_size_of(self@),
            r == block_image(self@).len(),
    {
        proof {
            lemma_block_data_len(self.entries@);
            crate::block::lemma_estimated_size_is_encoded_len(self.entries@);
        }
        SIZEOF_U16 + self.offsets.len() * SIZEOF_U16 + self.data.len()
    }
}

} // verus!
