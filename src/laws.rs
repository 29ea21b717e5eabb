//! What holds of the tree across its operations.
use crate::digest::sha256_of;
use crate::tree::{chain, proof_for, root_of, MerkleTree};
use vstd::prelude::*;

verus! {

/// Round trip, for the first block: in a tree over a nonempty sequence of
/// blocks, the first block is found, and verifying it with its proof against
/// the root digest succeeds. (Verification takes every proof entry as a
/// right sibling; the first block's path is the only one made of left turns
/// alone.)
pub proof fn lemma_first_block_round_trip(blocks: Seq<Seq<u8>>)
    requires
        blocks.len() > 0,
    ensures
        proof_for(blocks, blocks[0]) is Some,
        chain(sha256_of(blocks[0]), proof_for(blocks, blocks[0])->Some_0) == root_of(blocks),
    decreases blocks.len(),
{
    if blocks.len() > 1 {
        let mid = blocks.len() as int / 2;
        let lb = blocks.take(mid);
        assert(lb[0] == blocks[0]);
        lemma_first_block_round_trip(lb);
        let p = proof_for(lb, blocks[0])->Some_0;
        let q = p.push(root_of(blocks.skip(mid)));
        assert(q.drop_last() =~= p);
    }
}

/// Determinism: two well-formed trees over the same blocks have the same
/// root digest.
pub proof fn lemma_same_blocks_same_root(t1: MerkleTree, t2: MerkleTree)
    requires
        t1.wf(),
        t2.wf(),
        t1.blocks() == t2.blocks(),
    ensures
        t1.root_digest() == t2.root_digest(),
{
}

/// The root digest of a single block is that block's digest, with no
/// combination step.
pub proof fn lemma_singleton_root(block: Seq<u8>)
    ensures
        root_of(seq![block]) == sha256_of(block),
{
}

/// A leaf is not found exactly when no block has the same digest as the
/// leaf; in particular, a leaf whose digest differs from every block's is
/// never given a proof.
pub proof fn lemma_not_found(blocks: Seq<Seq<u8>>, leaf: Seq<u8>)
    ensures
        proof_for(blocks, leaf) is None <==> forall|i: int|
            0 <= i < blocks.len() ==> sha256_of(#[trigger] blocks[i]) != sha256_of(leaf),
    decreases blocks.len(),
{
    if blocks.len() > 1 {
        let mid = blocks.len() as int / 2;
        let lb = blocks.take(mid);
        let rb = blocks.skip(mid);
        lemma_not_found(lb, leaf);
        lemma_not_found(rb, leaf);
        if proof_for(blocks, leaf) is None {
            assert forall|i: int| 0 <= i < blocks.len() implies sha256_of(
                #[trigger] blocks[i],
            ) != sha256_of(leaf) by {
                if i < mid {
                    assert(blocks[i] == lb[i]);
                } else {
                    assert(blocks[i] == rb[i - mid]);
                }
            }
        } else {
            if proof_for(lb, leaf) is Some {
                let i = choose|i: int| 0 <= i < lb.len() && sha256_of(#[trigger] lb[i]) == sha256_of(leaf);
                assert(blocks[i] == lb[i]);
            } else {
                let i = choose|i: int| 0 <= i < rb.len() && sha256_of(#[trigger] rb[i]) == sha256_of(leaf);
                assert(blocks[i + mid] == rb[i]);
            }
        }
    }
}

} // verus!
