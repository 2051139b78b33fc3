//! A block: a content id and its decompressed bytes.
use vstd::prelude::*;

verus! {

/// The value of a [`Block`].
pub struct BlockView {
    pub content_id: i32,
    pub data: Seq<u8>,
}

/// A block of a slice, held with its data already decompressed.
#[derive(Clone, Debug)]
pub struct Block {
    content_id: i32,
    data: Vec<u8>,
}

impl View for Block {
    type V = BlockView;

    closed spec fn view(&self) -> BlockView {
        BlockView { content_id: self.content_id, data: self.data@ }
    }
}

/// The views of a list of blocks.
pub open spec fn block_views(bs: Seq<Block>) -> Seq<BlockView> {
    bs.map_values(|b: Block| b@)
}

impl Block {
    pub fn new(content_id: i32, data: Vec<u8>) -> (r: Block)
        ensures
            r@ == (BlockView { content_id, data: data@ }),
    {
        Block { content_id, data }
    }

    pub fn content_id(&self) -> (r: i32)
        ensures
            r == self@.content_id,
    {
        self.content_id
    }

    pub fn decompressed_data(&self) -> (r: &[u8])
        ensures
            r@ == self@.data,
    {
        self.data.as_slice()
    }

    /// A copy of the block.
    pub fn duplicate(&self) -> (r: Block)
        ensures
            r@ == self@,
    {
        let mut data: Vec<u8> = Vec::new();
        let mut i: usize = 0;
        while i < self.data.len()
            invariant
                i <= self.data@.len(),
                data@ == self.data@.subrange(0, i as int),
            decreases self.data@.len() - i,
        {
            data.push(self.data[i]);
            i = i + 1;
            proof {
                assert(data@ =~= self.data@.subrange(0, i as int));
            }
        }
        proof {
            assert(data@ =~= self.data@);
        }
        Block { content_id: self.content_id, data }
    }
}

} // verus!
