//! Blocks, as the validator hands them to the node.

use vstd::prelude::*;

use crate::byte_string::{copy_bytes, same_bytes};

verus! {

/// What names a block.
pub type BlockId = Vec<u8>;

/// What names a node of the network.
pub type PeerId = Vec<u8>;

/// A block of the chain.
#[derive(Debug, PartialEq, Eq)]
pub struct Block {
    /// What names the block
    pub block_id: BlockId,
    /// What names the block before it
    pub previous_id: BlockId,
    /// The node that published the block
    pub signer_id: PeerId,
    /// The block's place in the chain
    pub block_num: u64,
    /// What the publisher added for consensus: the seal of the block before
    pub payload: Vec<u8>,
    /// A digest of what is in the block
    pub summary: Vec<u8>,
}

/// The contents of a `Block`.
#[verifier::ext_equal]
pub struct BlockView {
    pub block_id: Seq<u8>,
    pub previous_id: Seq<u8>,
    pub signer_id: Seq<u8>,
    pub block_num: u64,
    pub payload: Seq<u8>,
    pub summary: Seq<u8>,
}

impl View for Block {
    type V = BlockView;

    open spec fn view(&self) -> BlockView {
        BlockView {
            block_id: self.block_id@,
            previous_id: self.previous_id@,
            signer_id: self.signer_id@,
            block_num: self.block_num,
            payload: self.payload@,
            summary: self.summary@,
        }
    }
}

impl Clone for Block {
    fn clone(&self) -> (copy: Self)
        ensures
            copy@ == self@,
    {
        Block {
            block_id: copy_bytes(&self.block_id),
            previous_id: copy_bytes(&self.previous_id),
            signer_id: copy_bytes(&self.signer_id),
            block_num: self.block_num,
            payload: copy_bytes(&self.payload),
            summary: copy_bytes(&self.summary),
        }
    }
}

impl Block {
    /// Whether two blocks are the same in every part.
    pub fn same_as(&self, other: &Block) -> (same: bool)
        ensures
            same == (self@ == other@),
    {
        self.block_num == other.block_num && same_bytes(&self.block_id, &other.block_id)
            && same_bytes(&self.previous_id, &other.previous_id) && same_bytes(
            &self.signer_id,
            &other.signer_id,
        ) && same_bytes(&self.payload, &other.payload) && same_bytes(&self.summary, &other.summary)
    }
}

} // verus!
