//! The follower's decision logic: the shutdown check, the retry
//! predicate, the height cursor, the bounded migration retry, and the
//! whole per-height attempt — rollback, finality gate, per-block update,
//! atomic commit, checkpoint — with the outside world's answers (finality,
//! block data, transaction outcome) passed in as values.

use vstd::prelude::*;

use crate::blocks::{flat_of, BlockData};
use crate::error::IndexerError;
use crate::merkle::MAX_LEAVES;
use crate::processor::{entries_flat, outputs_flat, process_block};
use crate::storage::{note_rows_of, tx_rows_of_flat, ChainState, StorageState};
use crate::tree::{spec_ser_tree, CommitmentTree};
use crate::witness::{consistent_with, spec_ser_wm, WitnessMap};

verus! {

/// The cooperative shutdown flag, sampled once per check.
#[derive(Clone, Copy, Debug, PartialEq, Eq, Structural)]
pub struct ShutdownFlag {
    pub requested: bool,
}

/// Whether the process should stop: true exactly when shutdown was
/// requested.
pub fn must_exit(handle: &ShutdownFlag) -> (r: bool)
    ensures
        r == handle.requested,
{
    handle.requested
}

/// The follower's retry predicate: a failed attempt is retried exactly
/// while no shutdown was requested.
pub fn should_retry(handle: &ShutdownFlag) -> (r: bool)
    ensures
        r == !handle.requested,
{
    !handle.requested
}

/// The height that follows the last synced one: the chain starts at
/// height 1 when nothing was persisted yet.
pub open spec fn next_height_spec(last: Option<u64>) -> u64
    recommends
        last is Some ==> last->0 < u64::MAX,
{
    match last {
        None => 1,
        Some(h) => (h + 1) as u64,
    }
}

/// The first height the follower processes after `last`; `None` once the
/// height space is exhausted.
pub fn next_height(last: Option<u64>) -> (r: Option<u64>)
    ensures
        last is None ==> r == Some(1u64),
        last matches Some(h) ==> (h < u64::MAX ==> r == Some((h + 1) as u64)) && (h == u64::MAX
            ==> r is None),
        r matches Some(n) ==> n == next_height_spec(last),
{
    match last {
        None => Some(1),
        Some(h) => if h < u64::MAX {
            Some(h + 1)
        } else {
            None
        },
    }
}

/// Monotone progress: committing the next height always moves the
/// persisted cursor strictly forward — the cursor never decreases across
/// a successful run, and equals the height of the last successful commit.
pub proof fn lemma_monotone_progress(last: Option<u64>)
    requires
        last is Some ==> last->0 < u64::MAX,
    ensures
        last is Some ==> next_height_spec(last) > last->0,
        last is None ==> next_height_spec(last) > 0,
{
}

/// Digit sequence check for decimal parsing.
pub open spec fn all_digits(s: Seq<u8>) -> bool {
    forall|i: int| 0 <= i < s.len() ==> 0x30 <= #[trigger] s[i] <= 0x39
}

/// The integer value of a decimal digit string.
pub open spec fn dec_val(s: Seq<u8>) -> int
    decreases s.len(),
{
    if s.len() == 0 {
        0
    } else {
        dec_val(s.drop_last()) * 10 + (s.last() - 0x30)
    }
}

/// What parsing a decimal string yields: a value exactly when the string
/// is nonempty, all digits, and within range.
pub open spec fn spec_parse_u64_dec(s: Seq<u8>) -> Option<u64> {
    if s.len() > 0 && all_digits(s) && dec_val(s) <= u64::MAX {
        Some(dec_val(s) as u64)
    } else {
        None
    }
}

proof fn lemma_dec_val_nonneg(s: Seq<u8>)
    requires
        all_digits(s),
    ensures
        dec_val(s) >= 0,
    decreases s.len(),
{
    if s.len() > 0 {
        assert(all_digits(s.drop_last()));
        lemma_dec_val_nonneg(s.drop_last());
    }
}

/// Parses an ASCII decimal string: rejects empty strings, non-digits,
/// and values above the `u64` range.
pub fn parse_u64_dec(s: &Vec<u8>) -> (r: Option<u64>)
    ensures
        r == spec_parse_u64_dec(s@),
{
    if s.len() == 0 {
        return None;
    }
    let mut acc: u64 = 0;
    let mut overflow = false;
    let mut i: usize = 0;
    while i < s.len()
        invariant
            i <= s.len(),
            s@.len() > 0,
            all_digits(s@.take(i as int)),
            !overflow ==> acc == dec_val(s@.take(i as int)),
            overflow ==> dec_val(s@.take(i as int)) > u64::MAX,
        decreases s.len() - i,
    {
        let b = s[i];
        if b < 0x30 || b > 0x39 {
            return None;
        }
        let d = b - 0x30;
        proof {
            assert(s@.take(i as int + 1).drop_last() =~= s@.take(i as int));
            assert(s@.take(i as int + 1).last() == s@[i as int]);
            lemma_dec_val_nonneg(s@.take(i as int));
        }
        if !overflow {
            if acc > (u64::MAX - (d as u64)) / 10 {
                proof {
                    assert(dec_val(s@.take(i as int + 1)) == acc * 10 + d);
                    assert((u64::MAX - (d as u64)) / 10 * 10 <= u64::MAX - d);
                    assert(acc * 10 >= ((u64::MAX - (d as u64)) / 10 + 1) * 10)
                        by (nonlinear_arith)
                        requires
                            acc >= (u64::MAX - (d as u64)) / 10 + 1,
                    ;
                }
                overflow = true;
            } else {
                proof {
                    assert(acc * 10 <= (u64::MAX - (d as u64)) / 10 * 10) by (nonlinear_arith)
                        requires
                            acc <= (u64::MAX - (d as u64)) / 10,
                    ;
                    assert((u64::MAX - (d as u64)) / 10 * 10 <= u64::MAX - d);
                }
                acc = acc * 10 + (d as u64);
                proof {
                    assert(acc == dec_val(s@.take(i as int + 1)));
                }
            }
        } else {
            proof {
                assert(dec_val(s@.take(i as int + 1)) == dec_val(s@.take(i as int)) * 10 + d);
                assert(dec_val(s@.take(i as int)) * 10 >= dec_val(s@.take(i as int)))
                    by (nonlinear_arith)
                    requires
                        dec_val(s@.take(i as int)) >= 0,
                ;
            }
        }
        i += 1;
    }
    proof {
        assert(s@.take(s@.len() as int) =~= s@);
    }
    if overflow {
        None
    } else {
        Some(acc)
    }
}

/// The migration retry budget: the environment's value when it parses as
/// an integer, else the default of 5.
pub fn migration_retry_budget(raw: Option<Vec<u8>>) -> (r: u64)
    ensures
        raw is None ==> r == 5,
        raw matches Some(s) ==> r == match spec_parse_u64_dec(s@) {
            Some(v) => v,
            None => 5,
        },
{
    match raw {
        None => 5,
        Some(s) => match parse_u64_dec(&s) {
            Some(v) => v,
            None => 5,
        },
    }
}

/// What the migration loop does after one attempt.
#[derive(Clone, Copy, Debug, PartialEq, Eq, Structural)]
pub enum MigrationStep {
    Done,
    Retry,
    GiveUp,
}

/// The bounded-retry decision of the migration loop: stop on success,
/// retry after a sleep while budget remains, give up at zero.
pub fn migration_step(attempt_ok: bool, retries_left: u64) -> (r: MigrationStep)
    ensures
        attempt_ok ==> r == MigrationStep::Done,
        !attempt_ok && retries_left > 0 ==> r == MigrationStep::Retry,
        !attempt_ok && retries_left == 0 ==> r == MigrationStep::GiveUp,
{
    if attempt_ok {
        MigrationStep::Done
    } else if retries_left > 0 {
        MigrationStep::Retry
    } else {
        MigrationStep::GiveUp
    }
}

/// One attempt at processing and committing the block at `block_height`,
/// with the outside answers passed in: whether the consensus node reports
/// the block final, the block's shielded data, and whether the storage
/// transaction applies (`persist_ok`, the attempt's crash/failure
/// injection point).
///
/// The attempt first rolls the tree and the witness map back to their
/// checkpoint, neutralizing partial work of a previous failed attempt.
/// Success requires the block to be final and its outputs to fit; the
/// commit persists all five artifacts as one unit and the in-memory state
/// becomes the new checkpoint. On any failure, the checkpointed state is
/// unchanged and the persisted state is untouched.
pub fn build_and_commit_masp_data_at_height(
    block_height: u64,
    exit_handle: &ShutdownFlag,
    block_committed: bool,
    block_data: &BlockData,
    persist_ok: bool,
    witness_map: &mut WitnessMap,
    commitment_tree: &mut CommitmentTree,
    storage: &mut StorageState,
    chain_state: &ChainState,
) -> (r: Result<(), IndexerError>)
    requires
        old(commitment_tree).inv(),
        old(witness_map).inv(),
        old(witness_map).saved().len() == old(commitment_tree).saved().len(),
        chain_state.block_height == block_height,
        block_data.height == block_height,
    ensures
        final(commitment_tree).inv(),
        final(witness_map).inv(),
        exit_handle.requested ==> {
            &&& r == Ok::<(), IndexerError>(())
            &&& *final(commitment_tree) == *old(commitment_tree)
            &&& *final(witness_map) == *old(witness_map)
            &&& *final(storage) == *old(storage)
        },
        r is Err ==> {
            &&& final(commitment_tree).saved() == old(commitment_tree).saved()
            &&& final(witness_map).saved() == old(witness_map).saved()
        },
        !exit_handle.requested && !block_committed ==> {
            &&& r == Err::<(), IndexerError>(IndexerError::Rpc)
            &&& *final(storage) == *old(storage)
            &&& final(commitment_tree).leaves() == old(commitment_tree).saved()
            &&& final(witness_map).paths() == old(witness_map).saved()
        },
        !exit_handle.requested && block_committed ==> {
            let fv = flat_of(block_data.height, block_data.transactions@);
            let total = outputs_flat(fv).len();
            let start = old(commitment_tree).saved().len() as int;
            &&& (start + total > MAX_LEAVES ==> r == Err::<(), IndexerError>(IndexerError::Masp)
                && *final(storage) == *old(storage))
            &&& (start + total <= MAX_LEAVES && !persist_ok ==> r == Err::<(), IndexerError>(
                IndexerError::Storage,
            ) && *final(storage) == *old(storage))
            &&& (start + total <= MAX_LEAVES && persist_ok ==> {
                &&& r == Ok::<(), IndexerError>(())
                &&& final(commitment_tree).leaves() == old(commitment_tree).saved()
                    + outputs_flat(fv)
                &&& final(commitment_tree).saved() == final(commitment_tree).leaves()
                &&& final(witness_map).saved() == final(witness_map).paths()
                &&& final(witness_map).paths().len() == final(commitment_tree).leaves().len()
                &&& total > 0 ==> consistent_with(
                    final(witness_map).paths(),
                    final(commitment_tree).leaves(),
                )
                &&& final(storage).last_synced() == Some(block_height)
                &&& final(storage).tree_bytes() == spec_ser_tree(final(commitment_tree).leaves())
                &&& final(storage).witness_bytes() == spec_ser_wm(final(witness_map).paths())
                &&& final(storage).note_rows() == old(storage).note_rows() + note_rows_of(
                    entries_flat(fv, start),
                )
                &&& final(storage).tx_rows() == old(storage).tx_rows() + tx_rows_of_flat(fv)
            })
        },
{
    if must_exit(exit_handle) {
        return Ok(());
    }
    witness_map.rollback();
    commitment_tree.rollback();
    if !block_committed {
        return Err(IndexerError::Rpc);
    }
    let (tx_notes_index, shielded_txs) = match process_block(
        commitment_tree,
        witness_map,
        block_data,
    ) {
        Ok(p) => p,
        Err(e) => {
            return Err(e);
        },
    };
    match storage.commit_attempt(
        persist_ok,
        chain_state,
        commitment_tree,
        witness_map,
        &tx_notes_index,
        &shielded_txs,
    ) {
        Ok(_) => (),
        Err(e) => {
            return Err(e);
        },
    }
    commitment_tree.checkpoint();
    witness_map.checkpoint();
    Ok(())
}

} // verus!
