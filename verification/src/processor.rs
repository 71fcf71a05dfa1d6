//! The per-block update algorithm: append each shielded output to the
//! commitment tree, bring every live witness up to date, record the fresh
//! witness of the new leaf, and note the position assigned to the output.

use vstd::prelude::*;

use crate::blocks::{flat_of, flat_views, flatten_block, tx_lt, BlockData, IndexedTx, ShieldedTx,
    block_wf};
use crate::error::IndexerError;
use crate::merkle::MAX_LEAVES;
use crate::notes::{NoteEntry, TxNoteMap};
use crate::tree::CommitmentTree;
use crate::witness::{consistent_with, Witness, WitnessMap};

verus! {

/// All output commitments of a flat shielded-transaction list, in append
/// order.
pub open spec fn outputs_flat(fv: Seq<(IndexedTx, (Seq<u8>, Seq<u64>))>) -> Seq<u64>
    decreases fv.len(),
{
    if fv.len() == 0 {
        Seq::empty()
    } else {
        outputs_flat(fv.drop_last()) + fv.last().1.1
    }
}

/// The note-position rows produced by a flat shielded-transaction list
/// when its first output lands at position `start`.
pub open spec fn entries_flat(fv: Seq<(IndexedTx, (Seq<u8>, Seq<u64>))>, start: int) -> Seq<
    NoteEntry,
>
    decreases fv.len(),
{
    if fv.len() == 0 {
        Seq::empty()
    } else {
        entries_flat(fv.drop_last(), start) + Seq::new(
            fv.last().1.1.len(),
            |i: int|
                NoteEntry {
                    is_fee_unshielding: false,
                    indexed_tx: fv.last().0,
                    note_position: (start + outputs_flat(fv.drop_last()).len() + i) as u64,
                },
        )
    }
}

pub proof fn lemma_outputs_flat_push(fv: Seq<(IndexedTx, (Seq<u8>, Seq<u64>))>, e: (IndexedTx, (Seq<u8>, Seq<u64>)))
    ensures
        outputs_flat(fv.push(e)) == outputs_flat(fv) + e.1.1,
{
    assert(fv.push(e).drop_last() =~= fv);
    assert(fv.push(e).last() == e);
}

pub proof fn lemma_entries_flat_push(fv: Seq<(IndexedTx, (Seq<u8>, Seq<u64>))>, e: (IndexedTx, (Seq<u8>, Seq<u64>)), start: int)
    ensures
        entries_flat(fv.push(e), start) == entries_flat(fv, start) + Seq::new(
            e.1.1.len(),
            |i: int|
                NoteEntry {
                    is_fee_unshielding: false,
                    indexed_tx: e.0,
                    note_position: (start + outputs_flat(fv).len() + i) as u64,
                },
        ),
{
    assert(fv.push(e).drop_last() =~= fv);
    assert(fv.push(e).last() == e);
}

/// A prefix of the list never yields more outputs than the whole.
pub proof fn lemma_outputs_flat_prefix(fv: Seq<(IndexedTx, (Seq<u8>, Seq<u64>))>, m: int)
    requires
        0 <= m <= fv.len(),
    ensures
        outputs_flat(fv.take(m)).len() <= outputs_flat(fv).len(),
    decreases fv.len() - m,
{
    if m == fv.len() {
        assert(fv.take(m) =~= fv);
    } else {
        assert(fv.take(m + 1).drop_last() =~= fv.take(m));
        lemma_outputs_flat_prefix(fv, m + 1);
    }
}

/// Appends every output of one shielded transaction to the tree, brings
/// all witnesses up to date, records the new leaf's witness, and notes
/// each assigned position. Fails, changing nothing, exactly when the
/// outputs do not fit in the tree.
pub fn update_witness_map(
    commitment_tree: &mut CommitmentTree,
    tx_notes_index: &mut TxNoteMap,
    witness_map: &mut WitnessMap,
    indexed_tx: IndexedTx,
    masp_tx: &ShieldedTx,
) -> (r: Result<(), IndexerError>)
    requires
        old(commitment_tree).inv(),
        old(witness_map).inv(),
        old(witness_map).paths().len() == old(commitment_tree).leaves().len(),
    ensures
        final(commitment_tree).inv(),
        final(witness_map).inv(),
        final(commitment_tree).saved() == old(commitment_tree).saved(),
        final(witness_map).saved() == old(witness_map).saved(),
        final(witness_map).paths().len() == final(commitment_tree).leaves().len(),
        old(commitment_tree).leaves().len() + masp_tx.outputs@.len() <= MAX_LEAVES ==> r
            == Ok::<(), IndexerError>(()) && {
            &&& final(commitment_tree).leaves() == old(commitment_tree).leaves()
                + masp_tx.outputs@
            &&& masp_tx.outputs@.len() > 0 ==> consistent_with(
                final(witness_map).paths(),
                final(commitment_tree).leaves(),
            )
            &&& masp_tx.outputs@.len() == 0 ==> final(witness_map).paths() == old(
                witness_map,
            ).paths()
            &&& final(tx_notes_index).entries() == old(tx_notes_index).entries() + Seq::new(
                masp_tx.outputs@.len(),
                |i: int|
                    NoteEntry {
                        is_fee_unshielding: false,
                        indexed_tx,
                        note_position: (old(commitment_tree).leaves().len() + i) as u64,
                    },
            )
        },
        old(commitment_tree).leaves().len() + masp_tx.outputs@.len() > MAX_LEAVES ==> r
            == Err::<(), IndexerError>(IndexerError::Masp) && final(commitment_tree).leaves()
            == old(commitment_tree).leaves() && final(witness_map).paths() == old(
            witness_map,
        ).paths() && final(tx_notes_index).entries() == old(tx_notes_index).entries(),
{
    let outputs = &masp_tx.outputs;
    let tree_size = commitment_tree.size();
    if (outputs.len() as u64) > MAX_LEAVES - tree_size {
        return Err(IndexerError::Masp);
    }
    let mut k: usize = 0;
    proof {
        assert(old(commitment_tree).leaves() + outputs@.take(0) =~= old(commitment_tree).leaves());
        assert(old(tx_notes_index).entries() + Seq::new(
            0,
            |i: int|
                NoteEntry {
                    is_fee_unshielding: false,
                    indexed_tx,
                    note_position: (old(commitment_tree).leaves().len() + i) as u64,
                },
        ) =~= old(tx_notes_index).entries());
    }
    while k < outputs.len()
        invariant
            k <= outputs.len(),
            outputs@ == masp_tx.outputs@,
            commitment_tree.inv(),
            witness_map.inv(),
            commitment_tree.saved() == old(commitment_tree).saved(),
            witness_map.saved() == old(witness_map).saved(),
            old(commitment_tree).leaves().len() + outputs@.len() <= MAX_LEAVES,
            commitment_tree.leaves() == old(commitment_tree).leaves() + outputs@.take(k as int),
            witness_map.paths().len() == commitment_tree.leaves().len(),
            k > 0 ==> consistent_with(witness_map.paths(), commitment_tree.leaves()),
            k == 0 ==> witness_map.paths() == old(witness_map).paths(),
            tx_notes_index.entries() == old(tx_notes_index).entries() + Seq::new(
                k as nat,
                |i: int|
                    NoteEntry {
                        is_fee_unshielding: false,
                        indexed_tx,
                        note_position: (old(commitment_tree).leaves().len() + i) as u64,
                    },
            ),
        decreases outputs.len() - k,
    {
        let leaf = outputs[k];
        let pos = match commitment_tree.append(leaf) {
            Ok(p) => p,
            Err(e) => {
                return Err(e);
            },
        };
        proof {
            assert(commitment_tree.leaves() =~= old(commitment_tree).leaves() + outputs@.take(
                k as int + 1,
            ));
        }
        witness_map.update_all_on_append(commitment_tree);
        let path = commitment_tree.witness_path(pos);
        proof {
            crate::merkle::lemma_auth_path_len(
                crate::merkle::TREE_DEPTH as nat,
                commitment_tree.leaves(),
                pos as nat,
            );
        }
        let w = Witness::new(path);
        match witness_map.insert(pos, w) {
            Ok(_) => (),
            Err(e) => {
                return Err(e);
            },
        }
        tx_notes_index.record(indexed_tx, pos);
        proof {
            assert(tx_notes_index.entries() =~= old(tx_notes_index).entries() + Seq::new(
                (k + 1) as nat,
                |i: int|
                    NoteEntry {
                        is_fee_unshielding: false,
                        indexed_tx,
                        note_position: (old(commitment_tree).leaves().len() + i) as u64,
                    },
            ));
            assert(consistent_with(witness_map.paths(), commitment_tree.leaves()));
        }
        k += 1;
    }
    proof {
        assert(outputs@.take(outputs@.len() as int) =~= outputs@);
    }
    Ok(())
}

/// Position determinism: replaying the same shielded transactions from
/// equal starting states yields identical leaves, an identical root,
/// identical note-index rows, and identical witnesses — in particular,
/// any two witness maps consistent with the same tree are equal.
pub proof fn lemma_replay_determinism(
    fv: Seq<(IndexedTx, (Seq<u8>, Seq<u64>))>,
    l1: Seq<u64>,
    l2: Seq<u64>,
    p1: Seq<Seq<u64>>,
    p2: Seq<Seq<u64>>,
)
    requires
        l1 == l2,
        consistent_with(p1, l1),
        consistent_with(p2, l2),
    ensures
        l1 + outputs_flat(fv) == l2 + outputs_flat(fv),
        entries_flat(fv, l1.len() as int) == entries_flat(fv, l2.len() as int),
        crate::merkle::root_spec(crate::merkle::TREE_DEPTH as nat, l1) == crate::merkle::root_spec(
            crate::merkle::TREE_DEPTH as nat,
            l2,
        ),
        p1 == p2,
{
    assert(p1 =~= p2);
}

/// Processes one block: flattens its shielded transactions into canonical
/// order, runs the append/witness update for each, and returns the block's
/// note-position index and its shielded transactions. On failure the
/// checkpointed state of the tree and the witness map is untouched, so a
/// rollback restores the pre-attempt state.
pub fn process_block(
    commitment_tree: &mut CommitmentTree,
    witness_map: &mut WitnessMap,
    block_data: &BlockData,
) -> (r: Result<(TxNoteMap, Vec<(IndexedTx, ShieldedTx)>), IndexerError>)
    requires
        old(commitment_tree).inv(),
        old(witness_map).inv(),
        old(witness_map).paths().len() == old(commitment_tree).leaves().len(),
    ensures
        final(commitment_tree).inv(),
        final(witness_map).inv(),
        final(commitment_tree).saved() == old(commitment_tree).saved(),
        final(witness_map).saved() == old(witness_map).saved(),
        final(witness_map).paths().len() == final(commitment_tree).leaves().len(),
        old(commitment_tree).leaves().len() + outputs_flat(
            flat_of(block_data.height, block_data.transactions@),
        ).len() <= MAX_LEAVES ==> r is Ok,
        r is Ok ==> old(commitment_tree).leaves().len() + outputs_flat(
            flat_of(block_data.height, block_data.transactions@),
        ).len() <= MAX_LEAVES,
        ({
            let fv = flat_of(block_data.height, block_data.transactions@);
            let total = outputs_flat(fv).len();
            let start = old(commitment_tree).leaves().len() as int;
            match r {
                Ok((notes, txs)) => {
                    &&& final(commitment_tree).leaves() == old(commitment_tree).leaves()
                        + outputs_flat(fv)
                    &&& total > 0 ==> consistent_with(
                        final(witness_map).paths(),
                        final(commitment_tree).leaves(),
                    )
                    &&& total == 0 ==> final(witness_map).paths() == old(witness_map).paths()
                        && final(commitment_tree).leaves() == old(commitment_tree).leaves()
                    &&& notes.entries() == entries_flat(fv, start)
                    &&& flat_views(txs@) == fv
                    &&& block_wf(block_data) ==> forall|i: int, j: int|
                        0 <= i < j < txs@.len() ==> tx_lt(
                            (#[trigger] txs@[i]).0,
                            (#[trigger] txs@[j]).0,
                        )
                },
                Err(e) => e == IndexerError::Masp,
            }
        }),
{
    let ghost fv = flat_of(block_data.height, block_data.transactions@);
    let ghost start = old(commitment_tree).leaves().len() as int;
    proof {
        commitment_tree.lemma_inv_bounds();
    }
    let flat = flatten_block(block_data);
    let mut notes = TxNoteMap::new();
    let mut k: usize = 0;
    proof {
        assert(fv.take(0) =~= Seq::<(IndexedTx, (Seq<u8>, Seq<u64>))>::empty());
        assert(old(commitment_tree).leaves() + outputs_flat(fv.take(0)) =~= old(
            commitment_tree,
        ).leaves());
        assert(notes.entries() =~= entries_flat(fv.take(0), start));
    }
    while k < flat.len()
        invariant
            k <= flat.len(),
            fv == flat_of(block_data.height, block_data.transactions@),
            flat_views(flat@) == fv,
            fv.len() == flat@.len(),
            commitment_tree.inv(),
            witness_map.inv(),
            commitment_tree.saved() == old(commitment_tree).saved(),
            witness_map.saved() == old(witness_map).saved(),
            start == old(commitment_tree).leaves().len() as int,
            start + outputs_flat(fv.take(k as int)).len() <= MAX_LEAVES,
            commitment_tree.leaves() == old(commitment_tree).leaves() + outputs_flat(
                fv.take(k as int),
            ),
            witness_map.paths().len() == commitment_tree.leaves().len(),
            outputs_flat(fv.take(k as int)).len() > 0 ==> consistent_with(
                witness_map.paths(),
                commitment_tree.leaves(),
            ),
            outputs_flat(fv.take(k as int)).len() == 0 ==> witness_map.paths() == old(
                witness_map,
            ).paths(),
            notes.entries() == entries_flat(fv.take(k as int), start),
        decreases flat.len() - k,
    {
        proof {
            assert(fv[k as int] == (flat@[k as int].0, (
                flat@[k as int].1.bytes@,
                flat@[k as int].1.outputs@,
            )));
            assert(fv.take(k as int + 1) =~= fv.take(k as int).push(fv[k as int]));
            lemma_outputs_flat_push(fv.take(k as int), fv[k as int]);
            lemma_entries_flat_push(fv.take(k as int), fv[k as int], start);
        }
        let itx = flat[k].0;
        let ghost tree_before = commitment_tree.leaves();
        let res = update_witness_map(commitment_tree, &mut notes, witness_map, itx, &flat[k].1);
        match res {
            Ok(_) => (),
            Err(e) => {
                proof {
                    lemma_outputs_flat_prefix(fv, k as int + 1);
                }
                return Err(e);
            },
        }
        proof {
            assert(commitment_tree.leaves() =~= old(commitment_tree).leaves() + outputs_flat(
                fv.take(k as int + 1),
            ));
            assert(notes.entries() =~= entries_flat(fv.take(k as int + 1), start));
        }
        k += 1;
    }
    proof {
        assert(fv.take(fv.len() as int) =~= fv);
    }
    Ok((notes, flat))
}

} // verus!
