//! The witness map: one Merkle authentication path per appended leaf,
//! kept current as the tree grows, with a shadow-copy checkpoint for
//! per-attempt rollback and a deterministic, round-trip-preserving byte
//! serialization. Positions are dense: the witness for position `p` is the
//! `p`-th entry, and a witness is added exactly when its leaf is appended.

use vstd::prelude::*;

use crate::codec::{le8, lemma_le8_roundtrip, lemma_parse_ser_u64s, lemma_ser_u64s_len, parse_u64s,
    push_u64_le, push_u64s_le, read_u64_le, read_u64s_le, ser_u64s, u64_of_le};
use crate::error::IndexerError;
use crate::merkle::{auth_path_spec, climb, climb_path, root_spec, lemma_path_climbs_to_root,
    MAX_LEAVES, TREE_DEPTH};
use crate::tree::CommitmentTree;

verus! {

/// The authentication path of one leaf.
pub struct Witness {
    path: Vec<u64>,
}

impl Witness {
    /// The sibling values of the path, leaf layer first.
    pub closed spec fn path(&self) -> Seq<u64> {
        self.path@
    }

    /// A witness holds one sibling per tree layer.
    pub open spec fn inv(&self) -> bool {
        self.path().len() == TREE_DEPTH
    }

    /// Wraps a full-depth authentication path.
    pub fn new(path: Vec<u64>) -> (r: Self)
        requires
            path.len() == TREE_DEPTH,
        ensures
            r.inv(),
            r.path() == path@,
    {
        Witness { path }
    }

    /// The root obtained by verifying `leaf` at position `position`
    /// against this witness.
    pub fn root(&self, position: u64, leaf: u64) -> (r: u64)
        requires
            self.inv(),
        ensures
            r == climb(self.path(), position as nat, leaf),
    {
        climb_path(&self.path, position, leaf)
    }
}

/// Every witness in `paths` is the authentication path of its own position
/// in the tree over `leaves`, and every leaf has its witness.
pub open spec fn consistent_with(paths: Seq<Seq<u64>>, leaves: Seq<u64>) -> bool {
    &&& paths.len() == leaves.len()
    &&& forall|i: int|
        0 <= i < paths.len() ==> paths[i] == auth_path_spec(TREE_DEPTH as nat, leaves, i as nat)
}

/// Witness/tree consistency: when the witness map matches the tree,
/// verifying the leaf at any recorded position against its witness
/// reproduces the tree root.
pub proof fn lemma_witness_tree_consistency(paths: Seq<Seq<u64>>, leaves: Seq<u64>)
    requires
        consistent_with(paths, leaves),
        leaves.len() <= MAX_LEAVES,
    ensures
        forall|p: int|
            0 <= p < paths.len() ==> climb(#[trigger] paths[p], p as nat, leaves[p]) == root_spec(
                TREE_DEPTH as nat,
                leaves,
            ),
{
    crate::merkle::lemma_pow2_depth();
    assert forall|p: int| 0 <= p < paths.len() implies climb(
        #[trigger] paths[p],
        p as nat,
        leaves[p],
    ) == root_spec(TREE_DEPTH as nat, leaves) by {
        lemma_path_climbs_to_root(TREE_DEPTH as nat, leaves, p as nat);
    }
}

/// Serialized form of the witness list: every path in position order.
pub open spec fn ser_paths(ws: Seq<Seq<u64>>) -> Seq<u8>
    decreases ws.len(),
{
    if ws.len() == 0 {
        Seq::empty()
    } else {
        ser_paths(ws.drop_last()) + ser_u64s(ws.last())
    }
}

/// All witnesses hold one sibling per tree layer.
pub open spec fn full_depth(ws: Seq<Seq<u64>>) -> bool {
    forall|i: int| 0 <= i < ws.len() ==> (#[trigger] ws[i]).len() == TREE_DEPTH
}

/// The paths recorded by a list of witnesses, in order.
pub open spec fn paths_of(ws: Seq<Witness>) -> Seq<Seq<u64>> {
    ws.map_values(|w: Witness| w.path())
}

pub proof fn lemma_paths_of(ws: Seq<Witness>)
    ensures
        paths_of(ws).len() == ws.len(),
        forall|j: int| 0 <= j < ws.len() ==> paths_of(ws)[j] == (#[trigger] ws[j]).path(),
{
}

pub proof fn lemma_ser_paths_len(ws: Seq<Seq<u64>>)
    requires
        full_depth(ws),
    ensures
        ser_paths(ws).len() == 8 * TREE_DEPTH * ws.len(),
    decreases ws.len(),
{
    if ws.len() > 0 {
        assert(full_depth(ws.drop_last()));
        lemma_ser_paths_len(ws.drop_last());
        lemma_ser_u64s_len(ws.last());
    }
}

pub proof fn lemma_ser_paths_push(ws: Seq<Seq<u64>>, w: Seq<u64>)
    ensures
        ser_paths(ws.push(w)) == ser_paths(ws) + ser_u64s(w),
{
    let p = ws.push(w);
    assert(p.drop_last() =~= ws);
    assert(p.last() == w);
}

/// The bytes of the `i`-th path stand at offset `8 * TREE_DEPTH * i`.
pub proof fn lemma_ser_paths_chunk(ws: Seq<Seq<u64>>, i: int)
    requires
        full_depth(ws),
        0 <= i < ws.len(),
    ensures
        ser_paths(ws).subrange(8 * TREE_DEPTH * i, 8 * TREE_DEPTH * (i + 1)) == ser_u64s(ws[i]),
    decreases ws.len(),
{
    lemma_ser_paths_len(ws);
    lemma_ser_u64s_len(ws.last());
    let step = 8 * TREE_DEPTH as int;
    if i == ws.len() - 1 {
        assert(full_depth(ws.drop_last()));
        lemma_ser_paths_len(ws.drop_last());
        assert(ser_paths(ws).subrange(step * i, step * (i + 1)) =~= ser_u64s(ws.last()));
    } else {
        assert(full_depth(ws.drop_last()));
        lemma_ser_paths_chunk(ws.drop_last(), i);
        lemma_ser_paths_len(ws.drop_last());
        assert(ser_paths(ws).subrange(step * i, step * (i + 1)) =~= ser_paths(
            ws.drop_last(),
        ).subrange(step * i, step * (i + 1)));
    }
}

/// Serialized form of a witness map: the witness count, then every path.
pub open spec fn spec_ser_wm(ws: Seq<Seq<u64>>) -> Seq<u8> {
    le8(ws.len() as u64) + ser_paths(ws)
}

/// Inverse of `spec_ser_wm`.
pub open spec fn spec_parse_wm(b: Seq<u8>) -> Option<Seq<Seq<u64>>> {
    if b.len() < 8 {
        None
    } else {
        let n = u64_of_le(b.take(8));
        if n > MAX_LEAVES || b.len() != 8 + 8 * TREE_DEPTH * n {
            None
        } else {
            Some(
                Seq::new(
                    n as nat,
                    |i: int|
                        parse_u64s(
                            b.subrange(
                                8 + 8 * TREE_DEPTH * i,
                                8 + 8 * TREE_DEPTH * (i + 1),
                            ),
                            TREE_DEPTH as nat,
                        ),
                ),
            )
        }
    }
}

/// Decoding an encoded witness map gives the paths back.
pub proof fn lemma_wm_roundtrip(ws: Seq<Seq<u64>>)
    requires
        full_depth(ws),
        ws.len() <= MAX_LEAVES,
    ensures
        spec_parse_wm(spec_ser_wm(ws)) == Some(ws),
{
    let b = spec_ser_wm(ws);
    lemma_le8_roundtrip(ws.len() as u64);
    lemma_ser_paths_len(ws);
    assert(b.take(8) =~= le8(ws.len() as u64));
    let body = ser_paths(ws);
    assert(b.skip(8) =~= body);
    let step = 8 * TREE_DEPTH as int;
    let parsed = spec_parse_wm(b);
    assert(parsed is Some);
    assert forall|i: int| 0 <= i < ws.len() implies parsed->0[i] == ws[i] by {
        assert(b.subrange(8 + step * i, 8 + step * (i + 1)) =~= body.subrange(
            step * i,
            step * (i + 1),
        ));
        lemma_ser_paths_chunk(ws, i);
        lemma_parse_ser_u64s(ws[i]);
    }
    assert(parsed->0 =~= ws);
}

fn copy_u64s(src: &Vec<u64>) -> (r: Vec<u64>)
    ensures
        r@ == src@,
{
    let mut r: Vec<u64> = Vec::new();
    let mut i: usize = 0;
    while i < src.len()
        invariant
            i <= src.len(),
            r@ == src@.take(i as int),
        decreases src.len() - i,
    {
        r.push(src[i]);
        proof {
            assert(src@.take(i as int + 1) =~= src@.take(i as int).push(src@[i as int]));
        }
        i += 1;
    }
    proof {
        assert(src@.take(src@.len() as int) =~= src@);
    }
    r
}

fn copy_witnesses(src: &Vec<Witness>) -> (r: Vec<Witness>)
    ensures
        paths_of(r@) == paths_of(src@),
{
    let mut r: Vec<Witness> = Vec::new();
    let mut i: usize = 0;
    while i < src.len()
        invariant
            i <= src.len(),
            r@.len() == i,
            forall|j: int| 0 <= j < i ==> (#[trigger] r@[j]).path() == src@[j].path(),
        decreases src.len() - i,
    {
        let w = Witness { path: copy_u64s(&src[i].path) };
        r.push(w);
        i += 1;
    }
    proof {
        lemma_paths_of(r@);
        lemma_paths_of(src@);
        assert(paths_of(r@) =~= paths_of(src@));
    }
    r
}

/// The set of live witnesses, indexed by leaf position, with its shadow
/// copy taken at the last checkpoint.
pub struct WitnessMap {
    ws: Vec<Witness>,
    saved: Vec<Witness>,
}

impl WitnessMap {
    /// The recorded paths: entry `p` is the witness of position `p`.
    pub closed spec fn paths(&self) -> Seq<Seq<u64>> {
        paths_of(self.ws@)
    }

    /// The paths as of the last checkpoint.
    pub closed spec fn saved(&self) -> Seq<Seq<u64>> {
        paths_of(self.saved@)
    }

    /// Internal well-formedness: every path is full depth and the map
    /// never outgrows the tree's capacity.
    pub closed spec fn inv(&self) -> bool {
        &&& full_depth(self.paths())
        &&& full_depth(self.saved())
        &&& self.paths().len() <= MAX_LEAVES
        &&& self.saved().len() <= MAX_LEAVES
    }

    /// An empty witness map, checkpointed at its empty state.
    pub fn new() -> (r: Self)
        ensures
            r.inv(),
            r.paths() == Seq::<Seq<u64>>::empty(),
            r.saved() == Seq::<Seq<u64>>::empty(),
    {
        let r = WitnessMap { ws: Vec::new(), saved: Vec::new() };
        proof {
            lemma_paths_of(r.ws@);
            lemma_paths_of(r.saved@);
            assert(r.paths() =~= Seq::<Seq<u64>>::empty());
            assert(r.saved() =~= Seq::<Seq<u64>>::empty());
        }
        r
    }

    /// Number of recorded witnesses.
    pub fn size(&self) -> (r: u64)
        requires
            self.inv(),
        ensures
            r == self.paths().len(),
            r <= MAX_LEAVES,
    {
        proof {
            lemma_paths_of(self.ws@);
        }
        self.ws.len() as u64
    }

    /// Records the witness of a freshly appended leaf; positions are dense,
    /// so the new leaf's position is the current count.
    pub fn insert(&mut self, position: u64, witness: Witness) -> (r: Result<(), IndexerError>)
        requires
            old(self).inv(),
            witness.inv(),
        ensures
            final(self).inv(),
            final(self).saved() == old(self).saved(),
            position == old(self).paths().len() && old(self).paths().len() < MAX_LEAVES ==> r
                == Ok::<(), IndexerError>(()) && final(self).paths() == old(self).paths().push(
                witness.path(),
            ),
            !(position == old(self).paths().len() && old(self).paths().len() < MAX_LEAVES) ==> r
                == Err::<(), IndexerError>(IndexerError::Masp) && final(self).paths() == old(
                self,
            ).paths(),
    {
        proof {
            lemma_paths_of(self.ws@);
        }
        if position == self.ws.len() as u64 && (self.ws.len() as u64) < MAX_LEAVES {
            self.ws.push(witness);
            proof {
                lemma_paths_of(self.ws@);
                assert(final(self).paths() =~= old(self).paths().push(witness.path()));
            }
            Ok(())
        } else {
            Err(IndexerError::Masp)
        }
    }

    /// The root obtained by verifying `leaf` against the witness recorded
    /// at `position`.
    pub fn root_at(&self, position: u64, leaf: u64) -> (r: Result<u64, IndexerError>)
        requires
            self.inv(),
        ensures
            position < self.paths().len() ==> r == Ok::<u64, IndexerError>(
                climb(self.paths()[position as int], position as nat, leaf),
            ),
            position >= self.paths().len() ==> r == Err::<u64, IndexerError>(IndexerError::Masp),
    {
        proof {
            lemma_paths_of(self.ws@);
        }
        if position < self.ws.len() as u64 {
            proof {
                lemma_paths_of(self.ws@);
                assert(self.paths()[position as int] == self.ws@[position as int].path());
            }
            let w = &self.ws[position as usize];
            Ok(w.root(position, leaf))
        } else {
            Err(IndexerError::Masp)
        }
    }

    /// Brings every recorded witness up to date with the tree after an
    /// append: afterwards each path is the authentication path of its
    /// position at the tree's current size.
    pub fn update_all_on_append(&mut self, tree: &CommitmentTree)
        requires
            old(self).inv(),
            tree.inv(),
            old(self).paths().len() <= tree.leaves().len(),
        ensures
            final(self).inv(),
            final(self).saved() == old(self).saved(),
            final(self).paths().len() == old(self).paths().len(),
            forall|i: int|
                0 <= i < final(self).paths().len() ==> final(self).paths()[i] == auth_path_spec(
                    TREE_DEPTH as nat,
                    tree.leaves(),
                    i as nat,
                ),
    {
        proof {
            lemma_paths_of(self.ws@);
        }
        let n = self.ws.len();
        let mut fresh: Vec<Witness> = Vec::new();
        let mut i: usize = 0;
        while i < n
            invariant
                i <= n,
                n == old(self).paths().len(),
                n <= tree.leaves().len(),
                tree.inv(),
                fresh@.len() == i,
                forall|j: int|
                    0 <= j < i ==> (#[trigger] fresh@[j]).path() == auth_path_spec(
                        TREE_DEPTH as nat,
                        tree.leaves(),
                        j as nat,
                    ),
                forall|j: int| 0 <= j < i ==> (#[trigger] fresh@[j]).path().len() == TREE_DEPTH,
            decreases n - i,
        {
            let path = tree.witness_path(i as u64);
            proof {
                crate::merkle::lemma_auth_path_len(TREE_DEPTH as nat, tree.leaves(), i as nat);
            }
            let w = Witness::new(path);
            fresh.push(w);
            i += 1;
        }
        self.ws = fresh;
        proof {
            lemma_paths_of(self.ws@);
            assert(final(self).saved() =~= old(self).saved());
            assert forall|j: int| 0 <= j < final(self).paths().len() implies final(self).paths()[j]
                == auth_path_spec(TREE_DEPTH as nat, tree.leaves(), j as nat) by {
                assert(final(self).paths()[j] == final(self).ws@[j].path());
            }
        }
    }

    /// Discards all changes since the last checkpoint.
    pub fn rollback(&mut self)
        requires
            old(self).inv(),
        ensures
            final(self).inv(),
            final(self).paths() == old(self).saved(),
            final(self).saved() == old(self).saved(),
    {
        self.ws = copy_witnesses(&self.saved);
    }

    /// Makes the current state the rollback target.
    pub fn checkpoint(&mut self)
        requires
            old(self).inv(),
        ensures
            final(self).inv(),
            final(self).paths() == old(self).paths(),
            final(self).saved() == old(self).paths(),
    {
        self.saved = copy_witnesses(&self.ws);
    }

    /// Deterministic serialization of the current state.
    pub fn serialize(&self) -> (r: Vec<u8>)
        requires
            self.inv(),
        ensures
            r@ == spec_ser_wm(self.paths()),
    {
        let mut out: Vec<u8> = Vec::new();
        proof {
            lemma_paths_of(self.ws@);
        }
        push_u64_le(&mut out, self.ws.len() as u64);
        let mut i: usize = 0;
        proof {
            assert(self.paths().take(0) =~= Seq::<Seq<u64>>::empty());
            assert(out@ =~= le8(self.paths().len() as u64) + ser_paths(self.paths().take(0)));
        }
        while i < self.ws.len()
            invariant
                i <= self.ws.len(),
                self.inv(),
                out@ == le8(self.paths().len() as u64) + ser_paths(self.paths().take(i as int)),
            decreases self.ws.len() - i,
        {
            proof {
                lemma_paths_of(self.ws@);
                assert(self.paths().take(i as int + 1) =~= self.paths().take(i as int).push(
                    self.paths()[i as int],
                ));
                lemma_ser_paths_push(self.paths().take(i as int), self.paths()[i as int]);
            }
            push_u64s_le(&mut out, &self.ws[i].path);
            proof {
                assert(out@ =~= le8(self.paths().len() as u64) + ser_paths(
                    self.paths().take(i as int + 1),
                ));
            }
            i += 1;
        }
        proof {
            assert(self.paths().take(self.paths().len() as int) =~= self.paths());
        }
        out
    }

    /// Reconstructs a witness map from its serialization; the result is
    /// checkpointed at the decoded state. Returns a storage error exactly
    /// on byte strings that no witness map serializes to.
    pub fn deserialize(bytes: &Vec<u8>) -> (r: Result<Self, IndexerError>)
        ensures
            match r {
                Ok(m) => {
                    &&& m.inv()
                    &&& spec_parse_wm(bytes@) == Some(m.paths())
                    &&& m.saved() == m.paths()
                },
                Err(e) => e == IndexerError::Storage && spec_parse_wm(bytes@) is None,
            },
    {
        if bytes.len() < 8 {
            return Err(IndexerError::Storage);
        }
        let n = read_u64_le(bytes, 0);
        proof {
            assert(bytes@.subrange(0, 8) =~= bytes@.take(8));
        }
        if n > MAX_LEAVES {
            return Err(IndexerError::Storage);
        }
        if (bytes.len() as u64) != 8 + 8 * (TREE_DEPTH as u64) * n {
            return Err(IndexerError::Storage);
        }
        let count = n as usize;
        let blen = bytes.len();
        let mut ws: Vec<Witness> = Vec::new();
        let mut i: usize = 0;
        while i < count
            invariant
                i <= count,
                count == n,
                blen == bytes@.len(),
                bytes@.len() == 8 + 8 * TREE_DEPTH * n,
                n <= MAX_LEAVES,
                ws@.len() == i,
                forall|j: int|
                    0 <= j < i ==> (#[trigger] ws@[j]).path() == parse_u64s(
                        bytes@.subrange(8 + 8 * TREE_DEPTH * j, 8 + 8 * TREE_DEPTH * (j + 1)),
                        TREE_DEPTH as nat,
                    ),
                forall|j: int| 0 <= j < i ==> (#[trigger] ws@[j]).path().len() == TREE_DEPTH,
            decreases count - i,
        {
            proof {
                assert(256 * (i as int) + 256 <= 256 * (n as int)) by (nonlinear_arith)
                    requires
                        (i as int) < (n as int),
                ;
                assert(8 * (TREE_DEPTH as int) * (i as int) == 256 * (i as int));
                assert(8 * (TREE_DEPTH as int) * (n as int) == 256 * (n as int));
                assert(8 + 8 * (TREE_DEPTH as int) * (i as int) + 8 * (TREE_DEPTH as int)
                    <= bytes@.len());
            }
            let off = 8 + 8 * TREE_DEPTH * i;
            let path = read_u64s_le(bytes, off, TREE_DEPTH);
            proof {
                assert(bytes@.subrange(off as int, off as int + 8 * TREE_DEPTH) =~= bytes@.subrange(
                    8 + 8 * TREE_DEPTH * (i as int),
                    8 + 8 * TREE_DEPTH * ((i as int) + 1),
                ));
            }
            let w = Witness::new(path);
            ws.push(w);
            i += 1;
        }
        let m = WitnessMap { saved: copy_witnesses(&ws), ws };
        proof {
            lemma_paths_of(m.ws@);
            lemma_paths_of(m.saved@);
            let parsed = spec_parse_wm(bytes@);
            assert(parsed is Some);
            assert(m.paths() =~= parsed->0);
            assert(m.saved() =~= m.paths());
        }
        Ok(m)
    }
}

} // verus!
