//! Blocks: the smallest unit of a sorted-string table that can be read by
//! itself.

use vstd::prelude::*;
use crate::block::layout::{decode_block, layout_wf};
use crate::key::KeyModel;

pub mod builder;
pub mod iterator;
pub mod layout;
pub mod layout_lemmas;

verus! {

/// The width in bytes of a length field and of an offset.
pub const SIZEOF_U16: usize = 2;

/// One key/value pair of a block, as a mathematical value.
pub struct EntryModel {
    pub key: KeyModel,
    pub value: Seq<u8>,
}

/// What a block is made of: the entry records one after another, and the
/// offset at which each record starts.
pub struct BlockModel {
    pub data: Seq<u8>,
    pub offsets: Seq<u16>,
}

/// An immutable block: a sorted run of key/value pairs, packed into one byte
/// buffer, and the offset of each record in it. It holds at least one pair.
#[derive(Debug)]
pub struct Block {
    data: Vec<u8>,
    offsets: Vec<u16>,
}

impl View for Block {
    type V = BlockModel;

    closed spec fn view(&self) -> BlockModel {
        BlockModel { data: self.data@, offsets: self.offsets@ }
    }
}

impl Block {
    /// What every block satisfies: it is the layout of at least one pair.
    #[verifier::type_invariant]
    pub closed spec fn wf(&self) -> bool {
        &&& self.offsets@.len() > 0
        &&& layout_wf(self.data@, self.offsets@)
    }

    /// The pairs that the block holds, in their order.
    pub open spec fn entries(&self) -> Seq<EntryModel> {
        decode_block(self@.data, self@.offsets)
    }

    /// What `wf` says, over the view.
    pub proof fn lemma_wf(&self)
        requires
            self.wf(),
        ensures
            self@.offsets.len() > 0,
            layout_wf(self@.data, self@.offsets),
    {
    }

    /// A block of the given records. Only a builder makes one.
    pub(crate) fn new(data: Vec<u8>, offsets: Vec<u16>) -> (b: Self)
        requires
            offsets@.len() > 0,
            layout_wf(data@, offsets@),
        ensures
            b@ == (BlockModel { data: data@, offsets: offsets@ }),
            b.wf(),
    {
        Block { data, offsets }
    }

    /// The entry records, one after another.
    pub fn data(&self) -> (r: &[u8])
        ensures
            r@ == self@.data,
            self.wf(),
    {
        proof {
            use_type_invariant(self);
        }
        self.data.as_slice()
    }

    /// The offset of each record in the data.
    pub fn offsets(&self) -> (r: &[u16])
        ensures
            r@ == self@.offsets,
            self.wf(),
    {
        proof {
            use_type_invariant(self);
        }
        self.offsets.as_slice()
    }
}

} // verus!
