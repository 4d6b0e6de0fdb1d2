use super::{BlockMeta, fingerprint32, fingerprint32_defined, fingerprint32_of};
use crate::block::{BlockBuilder, block_image, builder_accepts, copy_bytes};
use vstd::prelude::*;

verus! {

/// The encodings of `blocks`, one after the other.
pub open spec fn blocks_image(blocks: Seq<Seq<(Seq<u8>, Seq<u8>)>>) -> Seq<u8>
    decreases blocks.len(),
{
    if blocks.len() == 0 {
        Seq::empty()
    } else {
        blocks_image(blocks.drop_last()) + block_image(blocks.last())
    }
}

/// A block's metadata with its keys seen as sequences.
pub open spec fn meta_view(m: BlockMeta) -> (usize, Seq<u8>, Seq<u8>) {
    (m.offset, m.first_key@, m.last_key@)
}

/// `after` is `before` with the pair `(key, value)` added: when the current block
/// refuses the pair it is sealed, and a new block (with new metadata) starts with it; a
/// pair that a fresh block refuses still has its key recorded.
pub open spec fn added(before: SsTableBuilder, after: SsTableBuilder, key: Seq<u8>, value: Seq<u8>) -> bool {
    ({
        let bs = before.block_size_view();
        let kv = (key, value);
        let fits = builder_accepts(before.current_block(), bs, key, value);
        let metas0 = if fits {
            before.metas()
        } else {
            before.metas().push(
                (
                    (before.data_view().len() + block_image(before.current_block()).len()) as usize,
                    Seq::<u8>::empty(),
                    Seq::<u8>::empty(),
                ),
            )
        };
        let last = metas0.last();
        &&& fits ==> {
            &&& after.sealed_blocks() == before.sealed_blocks()
            &&& after.current_block() == before.current_block().push(kv)
        }
        &&& !fits ==> {
            &&& after.sealed_blocks() == before.sealed_blocks().push(before.current_block())
            &&& after.current_block() == if builder_accepts(Seq::empty(), bs, key, value) {
                seq![kv]
            } else {
                Seq::empty()
            }
        }
        &&& after.metas() == metas0.update(
            metas0.len() - 1,
            (last.0, if last.1.len() == 0 { key } else { last.1 }, key),
        )
        &&& after.key_hashes_view() == before.key_hashes_view().push(fingerprint32_of(key))
        &&& after.first_key_view() == if before.first_key_view().len() == 0 {
            key
        } else {
            before.first_key_view()
        }
        &&& after.last_key_view() == key
    })
}

/// Builds an SSTable from key-value pairs.
pub struct SsTableBuilder {
    builder: BlockBuilder,
    first_key: Vec<u8>,
    last_key: Vec<u8>,
    data: Vec<u8>,
    meta: Vec<BlockMeta>,
    block_size: usize,
    key_hashes: Vec<u32>,
    sealed: Ghost<Seq<Seq<(Seq<u8>, Seq<u8>)>>>,
}

impl SsTableBuilder {
    /// Entries of the blocks already sealed and encoded into the data.
    pub closed spec fn sealed_blocks(&self) -> Seq<Seq<(Seq<u8>, Seq<u8>)>> {
        self.sealed@
    }

    /// Entries of the block being built.
    pub closed spec fn current_block(&self) -> Seq<(Seq<u8>, Seq<u8>)> {
        self.builder@
    }

    /// The encoded sealed blocks.
    pub closed spec fn data_view(&self) -> Seq<u8> {
        self.data@
    }

    /// The target block size.
    pub closed spec fn block_size_view(&self) -> nat {
        self.block_size as nat
    }

    /// First key added, or empty.
    pub closed spec fn first_key_view(&self) -> Seq<u8> {
        self.first_key@
    }

    /// Last key added, or empty.
    pub closed spec fn last_key_view(&self) -> Seq<u8> {
        self.last_key@
    }

    /// Hashes of the keys added, in order.
    pub closed spec fn key_hashes_view(&self) -> Seq<u32> {
        self.key_hashes@
    }

    /// The block metadata, one per block (the last one for the block being built).
    pub closed spec fn metas(&self) -> Seq<(usize, Seq<u8>, Seq<u8>)> {
        self.meta@.map_values(|m: BlockMeta| meta_view(m))
    }

    /// The builder's parts agree.
    pub closed spec fn wf(&self) -> bool {
        &&& self.builder.wf()
        &&& self.builder.target_size() == self.block_size
        &&& self.data@ == blocks_image(self.sealed@)
        &&& self.meta@.len() >= 1
    }

    /// A builder with nothing added, for blocks of `block_size` bytes.
    pub open spec fn is_new(&self, block_size: nat) -> bool {
        &&& self.sealed_blocks() == Seq::<Seq<(Seq<u8>, Seq<u8>)>>::empty()
        &&& self.current_block() == Seq::<(Seq<u8>, Seq<u8>)>::empty()
        &&& self.data_view() == Seq::<u8>::empty()
        &&& self.block_size_view() == block_size
        &&& self.first_key_view() == Seq::<u8>::empty()
        &&& self.last_key_view() == Seq::<u8>::empty()
        &&& self.key_hashes_view() == Seq::<u32>::empty()
        &&& self.metas() == seq![(0usize, Seq::<u8>::empty(), Seq::<u8>::empty())]
    }

    /// Create a builder based on target block size.
    pub fn new(block_size: usize) -> (r: Self)
        ensures
            r.wf(),
            r.is_new(block_size as nat),
    {
        let r = SsTableBuilder {
            builder: BlockBuilder::new(block_size),
            block_size,
            first_key: Vec::new(),
            last_key: Vec::new(),
            key_hashes: Vec::new(),
            data: Vec::new(),
            meta: vec![BlockMeta { offset: 0, first_key: Vec::new(), last_key: Vec::new() }],
            sealed: Ghost(Seq::empty()),
        };
        assert(r.metas() =~= seq![(0usize, Seq::<u8>::empty(), Seq::<u8>::empty())]);
        r
    }

    /// Adds a key-value pair to SSTable. When the current block is full it is sealed
    /// and encoded, and a new block (with new metadata) starts with the pair; a pair
    /// that a fresh block refuses still has its key recorded. The key must be one that
    /// `farmhash::fingerprint32` hashes without overflow (see
    /// [`crate::table::fingerprint32_safe`]).
    pub fn add(&mut self, key: &[u8], value: &[u8])
        requires
            old(self).wf(),
            fingerprint32_defined(key@),
        ensures
            final(self).wf(),
            final(self).block_size_view() == old(self).block_size_view(),
            added(*old(self), *final(self), key@, value@),
    {
        let ghost old_metas = self.metas();
        if !self.builder.add(key, value) {
            let mut builder = BlockBuilder::new(self.block_size);
            std::mem::swap(&mut builder, &mut self.builder);
            let ghost full = builder@;
            let block = builder.build();
            let mut encoded = block.encode();
            self.data.append(&mut encoded);
            self.sealed = Ghost(self.sealed@.push(full));
            proof {
                assert(self.sealed@.drop_last() =~= old(self).sealed@);
            }
            let offset = self.data.len();
            let _ = self.builder.add(key, value);
            self.meta.push(BlockMeta { offset, first_key: Vec::new(), last_key: Vec::new() });
            proof {
                assert(self.metas() =~= old_metas.push((offset, Seq::<u8>::empty(), Seq::<u8>::empty())));
            }
        }
        let ghost metas0 = self.metas();
        self.key_hashes.push(fingerprint32(key));
        let last = self.meta.len() - 1;
        let mut last_meta = self.meta.remove(last);
        if last_meta.first_key.len() == 0 {
            last_meta.first_key = copy_bytes(key);
        }
        last_meta.last_key = copy_bytes(key);
        self.meta.push(last_meta);
        proof {
            assert(self.metas() =~= metas0.update(
                metas0.len() - 1,
                (metas0.last().0, if metas0.last().1.len() == 0 { key@ } else { metas0.last().1 }, key@),
            ));
        }
        if self.first_key.len() == 0 {
            self.first_key = copy_bytes(key);
        }
        self.last_key = copy_bytes(key);
    }

    /// Get the estimated size of the SSTable: the size of the data blocks sealed so far,
    /// which hold much more than the metadata.
    pub fn estimated_size(&self) -> (r: usize)
        requires
            self.wf(),
        ensures
            r == self.data_view().len(),
            r == blocks_image(self.sealed_blocks()).len(),
    {
        self.data.len()
    }

    /// The target block size.
    pub(crate) fn block_size(&self) -> (r: usize)
        ensures
            r == self.block_size_view(),
    {
        self.block_size
    }

    /// Hashes of the keys added, in order.
    pub fn key_hashes(&self) -> (r: &[u32])
        ensures
            r@ == self.key_hashes_view(),
    {
        self.key_hashes.as_slice()
    }
}

} // verus!
