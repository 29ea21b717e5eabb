//! Tree construction, inclusion proofs and their verification.
use crate::digest::{concat_bytes, copy_bytes, hash, same_bytes, sha256_of};
use vstd::prelude::*;

verus! {

/// The byte contents of each vector, in order.
pub open spec fn views_of(v: Seq<Vec<u8>>) -> Seq<Seq<u8>> {
    v.map_values(|b: Vec<u8>| b@)
}

/// The root digest of the tree built over `blocks`: the digest of the single
/// block, or the digest of the two halves' root digests, left then right,
/// where the left half holds the first `len / 2` blocks.
pub open spec fn root_of(blocks: Seq<Seq<u8>>) -> Seq<u8>
    decreases blocks.len(),
{
    if blocks.len() == 0 {
        Seq::empty()
    } else if blocks.len() == 1 {
        sha256_of(blocks[0])
    } else {
        let mid = blocks.len() as int / 2;
        sha256_of(root_of(blocks.take(mid)) + root_of(blocks.skip(mid)))
    }
}

/// The inclusion proof for `leaf` in the tree built over `blocks`, or `None`
/// when no block has the same digest as `leaf`. The search goes depth first,
/// left before right, so the first such block is the one proved. The proof
/// lists the siblings' root digests from the leaf's sibling up to the root's
/// child; it records no side.
pub open spec fn proof_for(blocks: Seq<Seq<u8>>, leaf: Seq<u8>) -> Option<Seq<Seq<u8>>>
    decreases blocks.len(),
{
    if blocks.len() == 0 {
        None
    } else if blocks.len() == 1 {
        if sha256_of(blocks[0]) == sha256_of(leaf) {
            Some(Seq::empty())
        } else {
            None
        }
    } else {
        let mid = blocks.len() as int / 2;
        match proof_for(blocks.take(mid), leaf) {
            Some(p) => Some(p.push(root_of(blocks.skip(mid)))),
            None => match proof_for(blocks.skip(mid), leaf) {
                Some(p) => Some(p.push(root_of(blocks.take(mid)))),
                None => None,
            },
        }
    }
}

/// The digest that verification recomputes: starting from `start`, each
/// proof entry in turn is appended to the running digest and the result
/// hashed.
pub open spec fn chain(start: Seq<u8>, proof: Seq<Seq<u8>>) -> Seq<u8>
    decreases proof.len(),
{
    if proof.len() == 0 {
        start
    } else {
        sha256_of(chain(start, proof.drop_last()) + proof.last())
    }
}

/// A node of the tree. A leaf has no children; an internal node has both.
#[derive(Debug)]
pub struct Node {
    pub hash: Vec<u8>,
    pub left: Option<Box<Node>>,
    pub right: Option<Box<Node>>,
}

impl Node {
    /// This node is the tree built over the nonempty `blocks`: its digest is
    /// their root digest, a single block gives a leaf, and more blocks give
    /// an internal node whose children are built over the two halves.
    pub open spec fn built_from(self, blocks: Seq<Seq<u8>>) -> bool
        decreases blocks.len(),
    {
        &&& blocks.len() > 0
        &&& self.hash@ == root_of(blocks)
        &&& if blocks.len() == 1 {
            self.left is None && self.right is None
        } else {
            let mid = blocks.len() as int / 2;
            match (self.left, self.right) {
                (Some(l), Some(r)) => l.built_from(blocks.take(mid)) && r.built_from(
                    blocks.skip(mid),
                ),
                _ => false,
            }
        }
    }
}

/// A Merkle tree: the blocks it was built over, and its root node, absent
/// exactly when there are no blocks.
#[derive(Debug)]
pub struct MerkleTree {
    pub root: Option<Node>,
    pub leaves: Vec<Vec<u8>>,
}

impl MerkleTree {
    /// The blocks, as byte sequences.
    pub open spec fn blocks(self) -> Seq<Seq<u8>> {
        views_of(self.leaves@)
    }

    /// The root node, if any, is the tree built over the blocks.
    pub open spec fn wf(self) -> bool {
        match self.root {
            None => self.leaves@.len() == 0,
            Some(n) => n.built_from(self.blocks()),
        }
    }

    /// The digest of the root node, if any.
    pub open spec fn root_digest(self) -> Option<Seq<u8>> {
        match self.root {
            None => None,
            Some(n) => Some(n.hash@),
        }
    }

    /// Builds the tree over `data`; it has no root when `data` is empty.
    pub fn new(data: Vec<Vec<u8>>) -> (tree: Self)
        ensures
            tree.wf(),
            tree.leaves@ == data@,
            tree.root_digest() == (if data@.len() == 0 {
                None::<Seq<u8>>
            } else {
                Some(root_of(views_of(data@)))
            }),
    {
        let root = if data.len() == 0 {
            None
        } else {
            proof {
                assert(views_of(data@).subrange(0, data@.len() as int) =~= views_of(data@));
            }
            Some(Self::build_tree(&data, 0, data.len()))
        };
        MerkleTree { root, leaves: data }
    }

    /// Builds the subtree over `nodes[lo..hi]`.
    fn build_tree(nodes: &Vec<Vec<u8>>, lo: usize, hi: usize) -> (n: Node)
        requires
            lo < hi <= nodes@.len(),
        ensures
            n.built_from(views_of(nodes@).subrange(lo as int, hi as int)),
        decreases hi - lo,
    {
        let ghost blocks = views_of(nodes@).subrange(lo as int, hi as int);
        if hi - lo == 1 {
            return Node { hash: hash(nodes[lo].as_slice()), left: None, right: None };
        }
        let mid = lo + (hi - lo) / 2;
        let left = Self::build_tree(nodes, lo, mid);
        let right = Self::build_tree(nodes, mid, hi);
        let combined = concat_bytes(left.hash.as_slice(), right.hash.as_slice());
        proof {
            assert(blocks.take((hi - lo) / 2) =~= views_of(nodes@).subrange(lo as int, mid as int));
            assert(blocks.skip((hi - lo) / 2) =~= views_of(nodes@).subrange(mid as int, hi as int));
        }
        Node { hash: hash(combined.as_slice()), left: Some(Box::new(left)), right: Some(Box::new(right)) }
    }
    /// The inclusion proof for `leaf`, or `None` when no block of the tree
    /// has the same digest as `leaf` (always so for an empty tree).
    pub fn find_proof(&self, leaf: &[u8]) -> (r: Option<Vec<Vec<u8>>>)
        requires
            self.wf(),
        ensures
            match r {
                Some(p) => proof_for(self.blocks(), leaf@) == Some(views_of(p@)),
                None => proof_for(self.blocks(), leaf@) is None,
            },
    {
        match &self.root {
            None => None,
            Some(root) => {
                let mut proof: Vec<Vec<u8>> = Vec::new();
                if Self::build_proof(root, leaf, &mut proof, Ghost(self.blocks())) {
                    proof {
                        assert(views_of(Seq::<Vec<u8>>::empty()) + proof_for(self.blocks(), leaf@)->Some_0
                            =~= proof_for(self.blocks(), leaf@)->Some_0);
                    }
                    Some(proof)
                } else {
                    None
                }
            },
        }
    }

    /// The inclusion proof for `leaf`; empty when it is not found.
    pub fn get_proof(&self, leaf: &[u8]) -> (r: Vec<Vec<u8>>)
        requires
            self.wf(),
        ensures
            views_of(r@) == match proof_for(self.blocks(), leaf@) {
                Some(p) => p,
                None => Seq::empty(),
            },
    {
        match self.find_proof(leaf) {
            Some(p) => p,
            None => {
                let r: Vec<Vec<u8>> = Vec::new();
                assert(views_of(r@) =~= Seq::empty());
                r
            },
        }
    }

    /// Searches the subtree `node`, built over `blocks`, for `leaf`; when it
    /// is found, appends the proof from it up to `node` and returns true.
    fn build_proof(
        node: &Node,
        leaf: &[u8],
        proof: &mut Vec<Vec<u8>>,
        blocks: Ghost<Seq<Seq<u8>>>,
    ) -> (r: bool)
        requires
            node.built_from(blocks@),
        ensures
            match proof_for(blocks@, leaf@) {
                Some(p) => r && views_of(final(proof)@) == views_of(old(proof)@) + p,
                None => !r && final(proof)@ == old(proof)@,
            },
        decreases blocks@.len(),
    {
        if node.left.is_none() && node.right.is_none() {
            let h = hash(leaf);
            return same_bytes(node.hash.as_slice(), h.as_slice());
        }
        let ghost mid = blocks@.len() as int / 2;
        let ghost lb = blocks@.take(mid);
        let ghost rb = blocks@.skip(mid);
        if let Some(left) = &node.left {
            if Self::build_proof(left, leaf, proof, Ghost(lb)) {
                if let Some(right) = &node.right {
                    assert(right.built_from(rb));
                    let ghost before = views_of(proof@);
                    proof.push(copy_bytes(right.hash.as_slice()));
                    assert(views_of(proof@) =~= before.push(right.hash@));
                }
                assert(views_of(proof@) =~= views_of(old(proof)@) + proof_for(blocks@, leaf@)->Some_0);
                return true;
            }
        }
        if let Some(right) = &node.right {
            if Self::build_proof(right, leaf, proof, Ghost(rb)) {
                if let Some(left) = &node.left {
                    assert(left.built_from(lb));
                    let ghost before = views_of(proof@);
                    proof.push(copy_bytes(left.hash.as_slice()));
                    assert(views_of(proof@) =~= before.push(left.hash@));
                }
                assert(views_of(proof@) =~= views_of(old(proof)@) + proof_for(blocks@, leaf@)->Some_0);
                return true;
            }
        }
        assert(proof_for(lb, leaf@) is None && proof_for(rb, leaf@) is None);
        false
    }

    /// Recomputes a root digest from `leaf` and `proof`, each entry appended
    /// after the running digest, and compares it with `root`. Entries are
    /// taken as right siblings: a proof whose path turns right anywhere is
    /// rejected, barring a hash collision.
    pub fn verify(root: &[u8], leaf: &[u8], proof: &[Vec<u8>]) -> (r: bool)
        ensures
            r == (chain(sha256_of(leaf@), views_of(proof@)) == root@),
    {
        let mut current = hash(leaf);
        let mut i: usize = 0;
        while i < proof.len()
            invariant
                i <= proof@.len(),
                current@ == chain(sha256_of(leaf@), views_of(proof@).take(i as int)),
            decreases proof@.len() - i,
        {
            let combined = concat_bytes(current.as_slice(), proof[i].as_slice());
            current = hash(combined.as_slice());
            proof {
                let ps = views_of(proof@);
                assert(ps.take(i + 1).drop_last() =~= ps.take(i as int));
            }
            i = i + 1;
        }
        assert(views_of(proof@).take(proof@.len() as int) =~= views_of(proof@));
        same_bytes(current.as_slice(), root)
    }
}

} // verus!
