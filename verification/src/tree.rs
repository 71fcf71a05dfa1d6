//! The append-only Merkle commitment tree of note commitments, with an
//! in-memory checkpoint for per-attempt rollback and a deterministic,
//! round-trip-preserving byte serialization.

use vstd::prelude::*;

use crate::codec::{le8, lemma_le8_roundtrip, lemma_parse_ser_u64s, lemma_ser_u64s_len, parse_u64s,
    push_u64_le, push_u64s_le, read_u64_le, read_u64s_le, ser_u64s, u64_of_le};
use crate::error::IndexerError;
use crate::merkle::{auth_path_spec, root_spec, tree_path, tree_root, MAX_LEAVES, TREE_DEPTH};

verus! {

/// Serialized form of a tree: the leaf count, then every leaf in order.
pub open spec fn spec_ser_tree(leaves: Seq<u64>) -> Seq<u8> {
    le8(leaves.len() as u64) + ser_u64s(leaves)
}

/// Inverse of `spec_ser_tree`: the leaf sequence a byte string decodes to,
/// or `None` where it is not the serialization of any tree.
pub open spec fn spec_parse_tree(b: Seq<u8>) -> Option<Seq<u64>> {
    if b.len() < 8 {
        None
    } else {
        let n = u64_of_le(b.take(8));
        if n > MAX_LEAVES || b.len() != 8 + 8 * n {
            None
        } else {
            Some(parse_u64s(b.skip(8), n as nat))
        }
    }
}

/// Decoding an encoded tree gives the leaves back.
pub proof fn lemma_tree_roundtrip(leaves: Seq<u64>)
    requires
        leaves.len() <= MAX_LEAVES,
    ensures
        spec_parse_tree(spec_ser_tree(leaves)) == Some(leaves),
{
    let b = spec_ser_tree(leaves);
    lemma_le8_roundtrip(leaves.len() as u64);
    lemma_ser_u64s_len(leaves);
    assert(b.take(8) =~= le8(leaves.len() as u64));
    assert(b.skip(8) =~= ser_u64s(leaves));
    lemma_parse_ser_u64s(leaves);
}

/// The incremental commitment tree. Its observable state is the sequence
/// of appended leaf commitments; the checkpoint is the prefix that was
/// current at the last load or successful commit, and `rollback` restores
/// it.
pub struct CommitmentTree {
    leaves: Vec<u64>,
    saved_len: usize,
}

impl CommitmentTree {
    /// The appended leaves, oldest first.
    pub closed spec fn leaves(&self) -> Seq<u64> {
        self.leaves@
    }

    /// The leaves as of the last checkpoint.
    pub closed spec fn saved(&self) -> Seq<u64> {
        self.leaves@.take(self.saved_len as int)
    }

    /// Internal well-formedness: the checkpoint is a prefix of the current
    /// state and the tree never exceeds its capacity.
    pub closed spec fn inv(&self) -> bool {
        self.saved_len <= self.leaves@.len() <= MAX_LEAVES
    }

    /// An empty tree, checkpointed at its empty state.
    pub fn new() -> (r: Self)
        ensures
            r.inv(),
            r.leaves() == Seq::<u64>::empty(),
            r.saved() == Seq::<u64>::empty(),
    {
        let r = CommitmentTree { leaves: Vec::new(), saved_len: 0 };
        proof {
            assert(r.saved() =~= Seq::<u64>::empty());
        }
        r
    }

    /// The capacity bound carried by well-formedness.
    pub proof fn lemma_inv_bounds(&self)
        requires
            self.inv(),
        ensures
            self.leaves().len() <= MAX_LEAVES,
            self.saved().len() <= self.leaves().len(),
    {
    }

    /// Number of leaves appended so far.
    pub fn size(&self) -> (r: u64)
        requires
            self.inv(),
        ensures
            r == self.leaves().len(),
            r <= MAX_LEAVES,
    {
        self.leaves.len() as u64
    }

    /// Appends a leaf commitment at the next free position and returns that
    /// position; fails with a masp error when the tree is full, leaving the
    /// state unchanged.
    pub fn append(&mut self, leaf: u64) -> (r: Result<u64, IndexerError>)
        requires
            old(self).inv(),
        ensures
            final(self).inv(),
            final(self).saved() == old(self).saved(),
            old(self).leaves().len() < MAX_LEAVES ==> r == Ok::<u64, IndexerError>(
                old(self).leaves().len() as u64,
            ) && final(self).leaves() == old(self).leaves().push(leaf),
            old(self).leaves().len() == MAX_LEAVES ==> r == Err::<u64, IndexerError>(
                IndexerError::Masp,
            ) && final(self).leaves() == old(self).leaves(),
    {
        if (self.leaves.len() as u64) < MAX_LEAVES {
            let pos = self.leaves.len() as u64;
            self.leaves.push(leaf);
            proof {
                assert(final(self).saved() =~= old(self).saved());
            }
            Ok(pos)
        } else {
            Err(IndexerError::Masp)
        }
    }

    /// Root of the tree at its current size.
    pub fn root(&self) -> (r: u64)
        requires
            self.inv(),
        ensures
            r == root_spec(TREE_DEPTH as nat, self.leaves()),
    {
        tree_root(&self.leaves)
    }

    /// Authentication path of the leaf at position `p`, valid for the
    /// current size.
    pub fn witness_path(&self, p: u64) -> (r: Vec<u64>)
        requires
            self.inv(),
            p < self.leaves().len(),
        ensures
            r@ == auth_path_spec(TREE_DEPTH as nat, self.leaves(), p as nat),
    {
        tree_path(&self.leaves, p)
    }

    /// Discards everything appended since the last checkpoint.
    pub fn rollback(&mut self)
        requires
            old(self).inv(),
        ensures
            final(self).inv(),
            final(self).leaves() == old(self).saved(),
            final(self).saved() == old(self).saved(),
    {
        let n = self.saved_len;
        self.leaves.truncate(n);
        proof {
            assert(final(self).leaves() =~= old(self).saved());
            assert(final(self).saved() =~= old(self).saved());
        }
    }

    /// Makes the current state the rollback target.
    pub fn checkpoint(&mut self)
        requires
            old(self).inv(),
        ensures
            final(self).inv(),
            final(self).leaves() == old(self).leaves(),
            final(self).saved() == old(self).leaves(),
    {
        self.saved_len = self.leaves.len();
        proof {
            assert(final(self).saved() =~= old(self).leaves());
        }
    }

    /// Deterministic serialization of the current state.
    pub fn serialize(&self) -> (r: Vec<u8>)
        requires
            self.inv(),
        ensures
            r@ == spec_ser_tree(self.leaves()),
    {
        let mut out: Vec<u8> = Vec::new();
        push_u64_le(&mut out, self.leaves.len() as u64);
        push_u64s_le(&mut out, &self.leaves);
        proof {
            assert(out@ =~= spec_ser_tree(self.leaves()));
        }
        out
    }

    /// Reconstructs a tree from its serialization; the result is
    /// checkpointed at the decoded state. Returns a storage error exactly
    /// on byte strings that no tree serializes to.
    pub fn deserialize(bytes: &Vec<u8>) -> (r: Result<Self, IndexerError>)
        ensures
            match r {
                Ok(t) => {
                    &&& t.inv()
                    &&& spec_parse_tree(bytes@) == Some(t.leaves())
                    &&& t.saved() == t.leaves()
                },
                Err(e) => e == IndexerError::Storage && spec_parse_tree(bytes@) is None,
            },
    {
        if bytes.len() < 8 {
            return Err(IndexerError::Storage);
        }
        let n = read_u64_le(bytes, 0);
        proof {
            assert(bytes@.subrange(0, 8) =~= bytes@.take(8));
        }
        if n > MAX_LEAVES {
            return Err(IndexerError::Storage);
        }
        if (bytes.len() as u64) != 8 + 8 * n {
            return Err(IndexerError::Storage);
        }
        let leaves = read_u64s_le(bytes, 8, n as usize);
        proof {
            assert(bytes@.subrange(8, 8 + 8 * (n as usize as int)) =~= bytes@.skip(8));
        }
        let t = CommitmentTree { saved_len: leaves.len(), leaves };
        proof {
            assert(t.saved() =~= t.leaves());
        }
        Ok(t)
    }
}

} // verus!
