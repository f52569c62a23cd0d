//! The root of a tree of transactions, recomputed from one of them and its
//! inclusion proof.

use vstd::prelude::*;
use crate::block::sha256d;
use crate::block::double_sha256;
use crate::bytes::bytes_eq;
use crate::bytes::copy_range;
use crate::transaction::Transaction;

verus! {

/// The length of one sibling hash in an inclusion proof.
pub const MERKLE_PROOF_ELEM_SIZE: usize = 32;

/// The root reached from `node` at position `index` of its level, with the
/// sibling hashes of `proof` from the leaves upwards: at each level the node
/// is joined with its sibling, to the right of it where the position is odd,
/// and the pair is hashed. Bytes at the end of `proof` that are no whole hash
/// are not read.
pub open spec fn merkle_root_of(node: Seq<u8>, proof: Seq<u8>, index: nat) -> Seq<u8>
    decreases proof.len(),
{
    if proof.len() < 32 {
        node
    } else {
        let sibling = proof.subrange(0, 32);
        let parent = if index % 2 == 1 {
            sha256d(sibling + node)
        } else {
            sha256d(node + sibling)
        };
        merkle_root_of(parent, proof.skip(32), index / 2)
    }
}

/// Recomputes the root from a node, its position and the sibling hashes.
pub fn compute_merkle_root(leaf: &[u8; 32], proof: &[u8], index: usize) -> (root: [u8; 32])
    ensures
        root@ == merkle_root_of(leaf@, proof@, index as nat),
{
    let mut node: [u8; 32] = *leaf;
    let mut position: usize = index;
    let mut at: usize = 0;
    assert(proof@.skip(0) =~= proof@);
    while proof.len() - at >= 32
        invariant
            at <= proof.len(),
            merkle_root_of(node@, proof@.skip(at as int), position as nat) == merkle_root_of(
                leaf@,
                proof@,
                index as nat,
            ),
        decreases proof.len() - at,
    {
        let mut pair: Vec<u8> = Vec::new();
        let sibling = copy_range(proof, at, at + 32);
        if position % 2 == 1 {
            pair.extend_from_slice(sibling.as_slice());
            pair.extend_from_slice(node.as_slice());
        } else {
            pair.extend_from_slice(node.as_slice());
            pair.extend_from_slice(sibling.as_slice());
        }
        proof {
            let rest = proof@.skip(at as int);
            assert(rest.subrange(0, 32) =~= sibling@);
            assert(rest.skip(32) =~= proof@.skip(at + 32));
            assert(pair@ =~= if position % 2 == 1 {
                sibling@ + node@
            } else {
                node@ + sibling@
            });
        }
        node = double_sha256(pair.as_slice());
        position = position / 2;
        at += 32;
    }
    node
}

/// Whether `proof` leads from the transaction at position `index` to `root`.
pub open spec fn merkle_proof_ok(txid: Seq<u8>, proof: Seq<u8>, index: nat, root: Seq<u8>) -> bool {
    proof.len() % 32 == 0 && merkle_root_of(txid, proof, index) == root
}

/// Checks the inclusion proof of a transaction against the root of a block.
pub fn verify_merkle_proof(tx: &Transaction, proof: &[u8], index: usize, root: &[u8; 32]) -> (ok:
    bool)
    ensures
        ok == merkle_proof_ok(tx.txid@, proof@, index as nat, root@),
{
    if proof.len() % MERKLE_PROOF_ELEM_SIZE != 0 {
        return false;
    }
    let computed = compute_merkle_root(&tx.txid, proof, index);
    bytes_eq(computed.as_slice(), root.as_slice())
}

} // verus!
