//! The storage gateway, modelled as an in-memory value: the last-synced
//! cursor, the serialized tree and witness map, and the append-only
//! note-position and shielded-transaction rows. `commit` applies all five
//! updates of a block as one step; `commit_attempt` exposes the atomicity
//! contract: a failed transaction leaves the persisted state untouched.

use vstd::prelude::*;

use crate::blocks::{flat_views, IndexedTx, ShieldedTx};
use crate::error::IndexerError;
use crate::notes::{NoteEntry, TxNoteMap};
use crate::tree::{spec_parse_tree, spec_ser_tree, CommitmentTree};
use crate::witness::{spec_parse_wm, spec_ser_wm, WitnessMap};

verus! {

/// The height whose processing is being committed; persisted as the new
/// last-synced cursor.
#[derive(Clone, Copy, Debug, PartialEq, Eq, Structural)]
pub struct ChainState {
    pub block_height: u64,
}

impl ChainState {
    pub fn new(block_height: u64) -> (r: Self)
        ensures
            r.block_height == block_height,
    {
        ChainState { block_height }
    }
}

/// One persisted row of the note-position index.
#[derive(Clone, Copy, Debug, PartialEq, Eq, Structural)]
pub struct NoteRow {
    pub is_fee_unshielding: bool,
    pub block_height: u64,
    pub block_index: u32,
    pub masp_tx_index: u64,
    pub note_position: u64,
}

/// One persisted row of raw shielded-transaction bytes.
pub struct TxRow {
    pub block_height: u64,
    pub block_index: u32,
    pub masp_tx_index: u64,
    pub bytes: Vec<u8>,
}

/// The persisted row a note-index entry maps to.
pub open spec fn note_row_of(e: NoteEntry) -> NoteRow {
    NoteRow {
        is_fee_unshielding: e.is_fee_unshielding,
        block_height: e.indexed_tx.block_height,
        block_index: e.indexed_tx.block_index,
        masp_tx_index: e.indexed_tx.masp_tx_index,
        note_position: e.note_position,
    }
}

/// The persisted rows of a whole note index, in insertion order.
pub open spec fn note_rows_of(entries: Seq<NoteEntry>) -> Seq<NoteRow> {
    Seq::new(entries.len(), |i: int| note_row_of(entries[i]))
}

/// The view of persisted shielded-transaction rows.
pub open spec fn tx_row_views(rows: Seq<TxRow>) -> Seq<(IndexedTx, Seq<u8>)> {
    Seq::new(
        rows.len(),
        |i: int|
            (
                IndexedTx {
                    block_height: rows[i].block_height,
                    block_index: rows[i].block_index,
                    masp_tx_index: rows[i].masp_tx_index,
                },
                rows[i].bytes@,
            ),
    )
}

/// The rows that a flat shielded-transaction list persists as.
pub open spec fn tx_rows_of_flat(fv: Seq<(IndexedTx, (Seq<u8>, Seq<u64>))>) -> Seq<(IndexedTx, Seq<u8>)> {
    Seq::new(fv.len(), |i: int| (fv[i].0, fv[i].1.0))
}

/// The persisted state of the indexer.
pub struct StorageState {
    last_synced: Option<u64>,
    tree_bytes: Vec<u8>,
    witness_bytes: Vec<u8>,
    note_rows: Vec<NoteRow>,
    tx_rows: Vec<TxRow>,
}

impl StorageState {
    /// The persisted last-synced cursor.
    pub closed spec fn last_synced(&self) -> Option<u64> {
        self.last_synced
    }

    /// The persisted serialization of the commitment tree; empty when no
    /// commit has happened yet.
    pub closed spec fn tree_bytes(&self) -> Seq<u8> {
        self.tree_bytes@
    }

    /// The persisted serialization of the witness map; empty when no
    /// commit has happened yet.
    pub closed spec fn witness_bytes(&self) -> Seq<u8> {
        self.witness_bytes@
    }

    /// The persisted note-position rows, append-only across commits.
    pub closed spec fn note_rows(&self) -> Seq<NoteRow> {
        self.note_rows@
    }

    /// The persisted shielded-transaction rows, append-only across
    /// commits.
    pub closed spec fn tx_rows(&self) -> Seq<(IndexedTx, Seq<u8>)> {
        tx_row_views(self.tx_rows@)
    }

    /// An empty database, as before the first commit.
    pub fn new() -> (r: Self)
        ensures
            r.last_synced() is None,
            r.tree_bytes() == Seq::<u8>::empty(),
            r.witness_bytes() == Seq::<u8>::empty(),
            r.note_rows() == Seq::<NoteRow>::empty(),
            r.tx_rows() == Seq::<(IndexedTx, Seq<u8>)>::empty(),
    {
        let r = StorageState {
            last_synced: None,
            tree_bytes: Vec::new(),
            witness_bytes: Vec::new(),
            note_rows: Vec::new(),
            tx_rows: Vec::new(),
        };
        proof {
            assert(r.note_rows() =~= Seq::<NoteRow>::empty());
            assert(r.tx_rows() =~= Seq::<(IndexedTx, Seq<u8>)>::empty());
        }
        r
    }

    /// The persisted note-position rows.
    pub fn note_rows_ref(&self) -> (r: &Vec<NoteRow>)
        ensures
            r@ == self.note_rows(),
    {
        &self.note_rows
    }

    /// The persisted shielded-transaction rows.
    pub fn tx_rows_ref(&self) -> (r: &Vec<TxRow>)
        ensures
            tx_row_views(r@) == self.tx_rows(),
    {
        &self.tx_rows
    }

    /// The persisted tree serialization.
    pub fn tree_bytes_ref(&self) -> (r: &Vec<u8>)
        ensures
            r@ == self.tree_bytes(),
    {
        &self.tree_bytes
    }

    /// The persisted witness-map serialization.
    pub fn witness_bytes_ref(&self) -> (r: &Vec<u8>)
        ensures
            r@ == self.witness_bytes(),
    {
        &self.witness_bytes
    }

    /// The persisted last-synced cursor, as a value.
    pub fn get_last_synced_block(&self) -> (r: Option<u64>)
        ensures
            r == self.last_synced(),
    {
        match self.last_synced {
            Some(h) => Some(h),
            None => None,
        }
    }

    /// Applies the five per-block updates as one transactional unit: the
    /// new cursor, the replaced tree and witness-map serializations, and
    /// the appended note-position and shielded-transaction rows.
    pub fn commit(
        &mut self,
        chain_state: &ChainState,
        commitment_tree: &CommitmentTree,
        witness_map: &WitnessMap,
        tx_notes_index: &TxNoteMap,
        shielded_txs: &Vec<(IndexedTx, ShieldedTx)>,
    )
        requires
            commitment_tree.inv(),
            witness_map.inv(),
        ensures
            final(self).last_synced() == Some(chain_state.block_height),
            final(self).tree_bytes() == spec_ser_tree(commitment_tree.leaves()),
            final(self).witness_bytes() == spec_ser_wm(witness_map.paths()),
            final(self).note_rows() == old(self).note_rows() + note_rows_of(
                tx_notes_index.entries(),
            ),
            final(self).tx_rows() == old(self).tx_rows() + tx_rows_of_flat(
                flat_views(shielded_txs@),
            ),
    {
        self.last_synced = Some(chain_state.block_height);
        self.tree_bytes = commitment_tree.serialize();
        self.witness_bytes = witness_map.serialize();
        let n = tx_notes_index.len();
        let mut i: usize = 0;
        let ghost rows_before = self.note_rows@;
        while i < n
            invariant
                i <= n,
                n == tx_notes_index.entries().len(),
                rows_before == old(self).note_rows(),
                self.last_synced() == Some(chain_state.block_height),
                self.tree_bytes() == spec_ser_tree(commitment_tree.leaves()),
                self.witness_bytes() == spec_ser_wm(witness_map.paths()),
                self.tx_rows@ == old(self).tx_rows@,
                self.note_rows@.len() == rows_before.len() + i,
                forall|j: int| 0 <= j < rows_before.len() ==> self.note_rows@[j] == rows_before[j],
                forall|j: int|
                    0 <= j < i ==> self.note_rows@[rows_before.len() + j] == note_row_of(
                        #[trigger] tx_notes_index.entries()[j],
                    ),
            decreases n - i,
        {
            let e = tx_notes_index.get(i);
            self.note_rows.push(
                NoteRow {
                    is_fee_unshielding: e.is_fee_unshielding,
                    block_height: e.indexed_tx.block_height,
                    block_index: e.indexed_tx.block_index,
                    masp_tx_index: e.indexed_tx.masp_tx_index,
                    note_position: e.note_position,
                },
            );
            i += 1;
        }
        proof {
            assert(self.note_rows@ =~= rows_before + note_rows_of(tx_notes_index.entries()));
        }
        let m = shielded_txs.len();
        let mut k: usize = 0;
        let ghost txs_before = self.tx_rows@;
        while k < m
            invariant
                k <= m,
                m == shielded_txs@.len(),
                txs_before == old(self).tx_rows@,
                self.last_synced() == Some(chain_state.block_height),
                self.tree_bytes() == spec_ser_tree(commitment_tree.leaves()),
                self.witness_bytes() == spec_ser_wm(witness_map.paths()),
                self.note_rows() == old(self).note_rows() + note_rows_of(
                    tx_notes_index.entries(),
                ),
                self.tx_rows@.len() == txs_before.len() + k,
                forall|j: int| 0 <= j < txs_before.len() ==> self.tx_rows@[j] == txs_before[j],
                forall|j: int|
                    0 <= j < k ==> {
                        let row = #[trigger] self.tx_rows@[txs_before.len() + j];
                        row.block_height == shielded_txs@[j].0.block_height && row.block_index
                            == shielded_txs@[j].0.block_index && row.masp_tx_index
                            == shielded_txs@[j].0.masp_tx_index && row.bytes@
                            == shielded_txs@[j].1.bytes@
                    },
            decreases m - k,
        {
            let itx = shielded_txs[k].0;
            let copied = shielded_txs[k].1.duplicate();
            self.tx_rows.push(
                TxRow {
                    block_height: itx.block_height,
                    block_index: itx.block_index,
                    masp_tx_index: itx.masp_tx_index,
                    bytes: copied.bytes,
                },
            );
            k += 1;
        }
        proof {
            let lhs = tx_row_views(self.tx_rows@);
            let rhs = tx_row_views(txs_before) + tx_rows_of_flat(flat_views(shielded_txs@));
            assert forall|j: int| 0 <= j < lhs.len() implies lhs[j] == rhs[j] by {
                if j < txs_before.len() {
                    assert(self.tx_rows@[j] == txs_before[j]);
                } else {
                    let jj = j - txs_before.len();
                    assert(self.tx_rows@[txs_before.len() + jj].bytes@
                        == shielded_txs@[jj].1.bytes@);
                    assert(flat_views(shielded_txs@)[jj] == (shielded_txs@[jj].0, (
                        shielded_txs@[jj].1.bytes@,
                        shielded_txs@[jj].1.outputs@,
                    )));
                }
            }
            assert(lhs =~= rhs);
        }
    }

    /// One commit attempt with its transactional outcome made explicit:
    /// when the transaction applies, every row of the block is durable;
    /// when it fails — a crash at any point during the commit — the
    /// persisted state is exactly what it was before the call, never a
    /// mix.
    pub fn commit_attempt(
        &mut self,
        persist_ok: bool,
        chain_state: &ChainState,
        commitment_tree: &CommitmentTree,
        witness_map: &WitnessMap,
        tx_notes_index: &TxNoteMap,
        shielded_txs: &Vec<(IndexedTx, ShieldedTx)>,
    ) -> (r: Result<(), IndexerError>)
        requires
            commitment_tree.inv(),
            witness_map.inv(),
        ensures
            persist_ok ==> {
                &&& r == Ok::<(), IndexerError>(())
                &&& final(self).last_synced() == Some(chain_state.block_height)
                &&& final(self).tree_bytes() == spec_ser_tree(commitment_tree.leaves())
                &&& final(self).witness_bytes() == spec_ser_wm(witness_map.paths())
                &&& final(self).note_rows() == old(self).note_rows() + note_rows_of(
                    tx_notes_index.entries(),
                )
                &&& final(self).tx_rows() == old(self).tx_rows() + tx_rows_of_flat(
                    flat_views(shielded_txs@),
                )
            },
            !persist_ok ==> r == Err::<(), IndexerError>(IndexerError::Storage) && *final(self)
                == *old(self),
    {
        if persist_ok {
            self.commit(chain_state, commitment_tree, witness_map, tx_notes_index, shielded_txs);
            Ok(())
        } else {
            Err(IndexerError::Storage)
        }
    }

    /// The tree state a load would produce: the empty tree before the
    /// first commit, else whatever the persisted bytes decode to.
    pub open spec fn loaded_tree(&self) -> Option<Seq<u64>> {
        if self.tree_bytes().len() == 0 {
            Some(Seq::<u64>::empty())
        } else {
            spec_parse_tree(self.tree_bytes())
        }
    }

    /// The witness-map state a load would produce.
    pub open spec fn loaded_wm(&self) -> Option<Seq<Seq<u64>>> {
        if self.witness_bytes().len() == 0 {
            Some(Seq::<Seq<u64>>::empty())
        } else {
            spec_parse_wm(self.witness_bytes())
        }
    }

    /// The persisted commitment tree, decoded: `None` before the first
    /// commit, the stored tree after one, a storage error on bytes that
    /// no tree serializes to.
    pub fn get_last_commitment_tree(&self) -> (r: Result<Option<CommitmentTree>, IndexerError>)
        ensures
            match r {
                Ok(None) => self.tree_bytes().len() == 0,
                Ok(Some(t)) => {
                    &&& self.tree_bytes().len() > 0
                    &&& t.inv()
                    &&& spec_parse_tree(self.tree_bytes()) == Some(t.leaves())
                    &&& t.saved() == t.leaves()
                },
                Err(e) => e == IndexerError::Storage && self.tree_bytes().len() > 0
                    && spec_parse_tree(self.tree_bytes()) is None,
            },
    {
        if self.tree_bytes.len() == 0 {
            Ok(None)
        } else {
            match CommitmentTree::deserialize(&self.tree_bytes) {
                Ok(t) => Ok(Some(t)),
                Err(e) => Err(e),
            }
        }
    }

    /// The persisted witness map, decoded: empty before the first commit,
    /// the stored map after one, a storage error on bytes that no witness
    /// map serializes to.
    pub fn get_last_witness_map(&self) -> (r: Result<WitnessMap, IndexerError>)
        ensures
            match r {
                Ok(m) => {
                    &&& m.inv()
                    &&& Some(m.paths()) == self.loaded_wm()
                    &&& m.saved() == m.paths()
                },
                Err(e) => e == IndexerError::Storage && self.loaded_wm() is None,
            },
    {
        if self.witness_bytes.len() == 0 {
            Ok(WitnessMap::new())
        } else {
            WitnessMap::deserialize(&self.witness_bytes)
        }
    }

    /// Loads the last committed state. Succeeds exactly when both
    /// serializations decode and the startup-consistency guard passes:
    /// a state where exactly one of (tree size, witness count) is zero is
    /// an invalid database and refuses startup.
    pub fn load_committed_state(&self) -> (r: Result<
        (Option<u64>, CommitmentTree, WitnessMap),
        IndexerError,
    >)
        ensures
            r is Ok <==> self.loaded_tree() is Some && self.loaded_wm() is Some && (
            self.loaded_tree()->0.len() == 0 <==> self.loaded_wm()->0.len() == 0),
            match r {
                Ok((last, tree, wm)) => {
                    &&& last == self.last_synced()
                    &&& tree.inv()
                    &&& wm.inv()
                    &&& Some(tree.leaves()) == self.loaded_tree()
                    &&& Some(wm.paths()) == self.loaded_wm()
                    &&& tree.saved() == tree.leaves()
                    &&& wm.saved() == wm.paths()
                },
                Err(e) => {
                    ||| (e == IndexerError::Storage && (self.loaded_tree() is None
                        || self.loaded_wm() is None))
                    ||| (e == IndexerError::InvalidState && self.loaded_tree() is Some
                        && self.loaded_wm() is Some && !(self.loaded_tree()->0.len() == 0
                        <==> self.loaded_wm()->0.len() == 0))
                },
            },
    {
        let tree = match self.get_last_commitment_tree() {
            Ok(Some(t)) => t,
            Ok(None) => CommitmentTree::new(),
            Err(e) => {
                return Err(e);
            },
        };
        let wm = match self.get_last_witness_map() {
            Ok(m) => m,
            Err(e) => {
                return Err(e);
            },
        };
        let tree_len = tree.size();
        let wm_len = wm.size();
        if (tree_len == 0 && wm_len != 0) || (tree_len != 0 && wm_len == 0) {
            return Err(IndexerError::InvalidState);
        }
        let last = self.get_last_synced_block();
        Ok((last, tree, wm))
    }
}

} // verus!
