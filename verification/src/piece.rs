//! Pieces of a torrent's content and the fixed-size blocks they
//! divide into.

use vstd::prelude::*;

verus! {

/// The number of bytes in a transfer block, the unit requested from
/// peers.
pub const BLOCK_SIZE: i64 = 16384;

/// One fixed-size transfer unit of a piece.
#[derive(Debug)]
pub struct Block {
    /// The bytes this block covers.
    pub size: i64,
    /// Whether the block's data has been fetched; structural state for
    /// a future transfer tracker, always false here.
    pub acquired: bool,
}

/// The model of a block.
pub struct BlockModel {
    pub size: int,
    pub acquired: bool,
}

/// The model of a piece.
pub struct PieceModel {
    pub size: int,
    pub hash: Seq<u8>,
    pub verified: bool,
    pub blocks: Seq<BlockModel>,
}

/// One fixed-length verification unit of a torrent's content.
#[derive(Debug)]
pub struct Piece {
    /// The bytes this piece covers.
    pub size: i64,
    /// The piece's expected 20-byte digest.
    pub hash: Vec<u8>,
    /// Whether the piece's data has been checked against the digest;
    /// structural state for a future integrity checker, always false
    /// here.
    pub verified: bool,
    /// The piece's transfer blocks, in order.
    pub blocks: Vec<Block>,
}

/// The model of a block.
pub open spec fn abs_block(b: Block) -> BlockModel {
    BlockModel { size: b.size as int, acquired: b.acquired }
}

/// The models of a run of blocks, in order.
pub open spec fn abs_blocks(blocks: Seq<Block>) -> Seq<BlockModel> {
    Seq::new(blocks.len(), |i: int| abs_block(blocks[i]))
}

/// The model of a piece.
pub open spec fn abs_piece(p: Piece) -> PieceModel {
    PieceModel { size: p.size as int, hash: p.hash@, verified: p.verified, blocks: abs_blocks(p.blocks@) }
}

/// The least number of chunks of size `b` that cover `a` bytes.
pub open spec fn ceil_div(a: int, b: int) -> int {
    if a % b == 0 {
        a / b
    } else {
        a / b + 1
    }
}

/// The blocks a piece of the given size divides into: full blocks in
/// order, then one block for the remainder, none of them acquired.
pub open spec fn block_layout(size: int) -> Seq<BlockModel>
    decreases size,
{
    if size <= 0 {
        Seq::empty()
    } else if size <= BLOCK_SIZE {
        seq![BlockModel { size: size, acquired: false }]
    } else {
        seq![BlockModel { size: BLOCK_SIZE as int, acquired: false }] + block_layout(
            size - BLOCK_SIZE,
        )
    }
}

/// A piece of the given size divides into `ceil(size / BLOCK_SIZE)`
/// blocks, each of `BLOCK_SIZE` bytes except the last, which covers
/// the remainder (or a full block where the size divides evenly).
pub proof fn lemma_block_layout(size: int)
    requires
        size >= 0,
    ensures
        block_layout(size).len() == ceil_div(size, BLOCK_SIZE as int),
        forall|i: int|
            0 <= i < block_layout(size).len() ==> (#[trigger] block_layout(size)[i]).acquired
                == false,
        forall|i: int|
            0 <= i < block_layout(size).len() - 1 ==> (#[trigger] block_layout(size)[i]).size
                == BLOCK_SIZE,
        block_layout(size).len() > 0 ==> block_layout(size).last().size == (if size % (
        BLOCK_SIZE as int) == 0 {
            BLOCK_SIZE as int
        } else {
            size % (BLOCK_SIZE as int)
        }),
    decreases size,
{
    let b = BLOCK_SIZE as int;
    if size == 0 {
    } else if size <= b {
        assert(size % b == (if size == b {
            0int
        } else {
            size
        }));
        assert(ceil_div(size, b) == 1);
    } else {
        lemma_block_layout(size - b);
        assert((size - b) % b == size % b && size / b == (size - b) / b + 1) by {
            vstd::arithmetic::div_mod::lemma_mod_sub_multiples_vanish(size, b);
            vstd::arithmetic::div_mod::lemma_div_plus_one(size - b, b);
        }
    }
}

impl Piece {
    /// Builds a piece covering `size` bytes with the given expected
    /// digest, unverified, with its blocks laid out and unacquired.
    pub fn new(size: i64, hash: Vec<u8>) -> (p: Piece)
        requires
            0 <= size,
            hash@.len() == 20,
        ensures
            abs_piece(p) == (PieceModel {
                size: size as int,
                hash: hash@,
                verified: false,
                blocks: block_layout(size as int),
            }),
    {
        let mut blocks: Vec<Block> = Vec::new();
        let mut remaining: i64 = size;
        proof {
            assert(abs_blocks(blocks@) + block_layout(remaining as int) =~= block_layout(
                size as int,
            ));
        }
        while remaining > 0
            invariant
                0 <= remaining <= size,
                abs_blocks(blocks@) + block_layout(remaining as int) =~= block_layout(size as int),
            decreases remaining,
        {
            let step: i64 = if remaining >= BLOCK_SIZE {
                BLOCK_SIZE
            } else {
                remaining
            };
            let ghost old_blocks = blocks@;
            blocks.push(Block { size: step, acquired: false });
            proof {
                assert(abs_blocks(old_blocks.push(Block { size: step, acquired: false }))
                    =~= abs_blocks(old_blocks).push(BlockModel { size: step as int, acquired: false }));
                assert(block_layout(remaining as int) == seq![
                    BlockModel { size: step as int, acquired: false },
                ] + block_layout(remaining as int - step as int));
                assert(abs_blocks(blocks@) + block_layout((remaining - step) as int)
                    =~= abs_blocks(old_blocks) + block_layout(remaining as int));
            }
            remaining = remaining - step;
        }
        let p = Piece { size, hash, verified: false, blocks };
        proof {
            assert(block_layout(0) =~= Seq::<BlockModel>::empty());
            assert(abs_piece(p).blocks =~= block_layout(size as int));
        }
        p
    }
}

} // verus!
