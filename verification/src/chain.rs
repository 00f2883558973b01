//! The chain: an append-only sequence of blocks in which each block names
//! the one before it.

use vstd::prelude::*;
use crate::block::{block_id, Block, BlockView};
use crate::digest::Keccak256;

verus! {

/// The identifier of the last block, or `None` for an empty chain.
pub open spec fn tip(chain: Seq<BlockView>) -> Option<Seq<u8>> {
    if chain.len() == 0 {
        None
    } else {
        Some(chain.last().id)
    }
}

/// The first block has no predecessor, and every later block names the
/// block before it.
pub open spec fn linked(chain: Seq<BlockView>) -> bool {
    &&& chain.len() > 0 ==> chain[0].prev_block_id is None
    &&& forall|i: int|
        0 < i < chain.len() ==> (#[trigger] chain[i]).prev_block_id == Some(chain[i - 1].id)
}

/// The block as the chain stores it on top of `tip`: the same transactions,
/// `tip` as its predecessor, and the identifier that follows from both.
pub open spec fn relinked(block: BlockView, tip: Option<Seq<u8>>) -> BlockView {
    BlockView {
        id: block_id(block.transactions, tip),
        transactions: block.transactions,
        prev_block_id: tip,
    }
}

/// An immutable Chain made up of multiple Blocks.
pub struct Chain {
    blocks: Vec<Block>,
}

impl View for Chain {
    type V = Seq<BlockView>;

    closed spec fn view(&self) -> Seq<BlockView> {
        Seq::new(self.blocks@.len(), |i: int| self.blocks@[i]@)
    }
}

impl Chain {
    /// What holds of every chain: its blocks are well formed and linked.
    pub open spec fn wf(&self) -> bool {
        &&& linked(self@)
        &&& forall|i: int| 0 <= i < self@.len() ==> (#[trigger] self@[i]).wf()
    }

    /// Creates a new Chain: empty, with room asked for `init_capacity` Blocks if it is to be had.
    pub fn new(init_capacity: usize) -> (chain: Self)
        ensures
            chain@ == Seq::<BlockView>::empty(),
            chain.wf(),
    {
        let mut blocks: Vec<Block> = Vec::new();
        let _ = blocks.try_reserve(init_capacity);
        Chain { blocks }
    }

    /// Appends a new Block and returns the current height.
    pub fn append(&mut self, block: Block) -> (height: u64)
        requires
            old(self).wf(),
        ensures
            final(self)@ == old(self)@.push(relinked(block@, tip(old(self)@))),
            final(self).wf(),
            height == old(self)@.len(),
    {
        let mut block = block;
        let previous_block_id: Option<Keccak256> = match self.last() {
            Some(prev_block) => Some(prev_block.id().clone()),
            None => None,
        };
        block.set_previous_block_id(previous_block_id);
        let ghost before = self@;
        self.blocks.push(block);
        assert(self@ =~= before.push(block@));
        (self.blocks.len() - 1) as u64
    }

    /// Returns the current height.
    pub fn height(&self) -> (height: Option<u64>)
        ensures
            self@.len() == 0 ==> height is None,
            self@.len() > 0 ==> height == Some((self@.len() - 1) as u64),
    {
        if self.blocks.is_empty() {
            return None;
        }
        Some((self.blocks.len() - 1) as u64)
    }

    /// Returns a reference to the Block at the given index.
    pub fn get(&self, index: usize) -> (block: Option<&Block>)
        ensures
            index < self@.len() ==> (block matches Some(b) && b@ == self@[index as int]),
            index >= self@.len() ==> block is None,
    {
        if index < self.blocks.len() {
            Some(&self.blocks[index])
        } else {
            None
        }
    }

    /// Returns a reference to the last Block.
    pub fn last(&self) -> (block: Option<&Block>)
        ensures
            self@.len() > 0 ==> (block matches Some(b) && b@ == self@.last()),
            self@.len() == 0 ==> block is None,
    {
        if self.blocks.is_empty() {
            None
        } else {
            Some(&self.blocks[self.blocks.len() - 1])
        }
    }

    /// Returns the number of Blocks.
    pub fn len(&self) -> (len: usize)
        ensures
            len == self@.len(),
    {
        self.blocks.len()
    }

    /// Returns the id of the last Block, or `None` for an empty Chain.
    pub fn tip_id(&self) -> (id: Option<Keccak256>)
        ensures
            crate::codec::opt_seq(id) == tip(self@),
    {
        match self.last() {
            Some(block) => Some(block.id().clone()),
            None => None,
        }
    }
}

/// In a well-formed chain every block after the first names the block
/// before it, and the first block names none.
pub proof fn lemma_chain_linked(chain: Chain, i: int)
    requires
        chain.wf(),
        0 <= i < chain@.len(),
    ensures
        i == 0 ==> chain@[i].prev_block_id is None,
        i > 0 ==> chain@[i].prev_block_id == Some(chain@[i - 1].id),
        chain@[i].id == block_id(chain@[i].transactions, chain@[i].prev_block_id),
{
}

} // verus!
