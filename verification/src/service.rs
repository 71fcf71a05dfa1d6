//! The read side: the application state handle and the note-position
//! query service that serves the persisted note-index rows from a given
//! height on, in stored order.

use vstd::prelude::*;

use crate::storage::{NoteRow, StorageState};

verus! {

/// The application's handle to its persisted state.
pub struct AppState {
    storage: StorageState,
}

impl AppState {
    /// The persisted state behind the handle.
    pub closed spec fn storage(&self) -> &StorageState {
        &self.storage
    }

    /// Wraps a storage state.
    pub fn new(storage: StorageState) -> (r: Self)
        ensures
            *r.storage() == storage,
    {
        AppState { storage }
    }
}

/// The rows at or above `from`, in stored order, as plain tuples of
/// (fee-unshielding marker, block height, block index, shielded-tx index,
/// note position).
pub open spec fn notes_from(rows: Seq<NoteRow>, from: u64) -> Seq<(bool, u64, u64, u64, u64)>
    decreases rows.len(),
{
    if rows.len() == 0 {
        Seq::empty()
    } else {
        let prefix = notes_from(rows.drop_last(), from);
        let e = rows.last();
        if e.block_height >= from {
            prefix.push(
                (
                    e.is_fee_unshielding,
                    e.block_height,
                    e.block_index as u64,
                    e.masp_tx_index,
                    e.note_position,
                ),
            )
        } else {
            prefix
        }
    }
}

/// Serves the persisted note-position index.
pub struct NotesMapService {
    app_state: AppState,
}

impl NotesMapService {
    /// The persisted state the service reads.
    pub closed spec fn storage(&self) -> &StorageState {
        self.app_state.storage()
    }

    /// A service over the given application state.
    pub fn new(app_state: AppState) -> (r: Self)
        ensures
            r.storage() == app_state.storage(),
    {
        NotesMapService { app_state }
    }

    /// The note-index rows of every block at or above `from_block_height`,
    /// in stored order.
    pub fn get_notes_map(&self, from_block_height: u64) -> (r: Vec<(bool, u64, u64, u64, u64)>)
        ensures
            r@ == notes_from(self.storage().note_rows(), from_block_height),
    {
        let rows = self.app_state.storage.note_rows_ref();
        let mut r: Vec<(bool, u64, u64, u64, u64)> = Vec::new();
        let mut i: usize = 0;
        proof {
            assert(rows@.take(0) =~= Seq::<NoteRow>::empty());
        }
        while i < rows.len()
            invariant
                i <= rows.len(),
                rows@ == self.storage().note_rows(),
                r@ == notes_from(rows@.take(i as int), from_block_height),
            decreases rows.len() - i,
        {
            let e = rows[i];
            proof {
                assert(rows@.take(i as int + 1).drop_last() =~= rows@.take(i as int));
                assert(rows@.take(i as int + 1).last() == rows@[i as int]);
            }
            if e.block_height >= from_block_height {
                r.push(
                    (
                        e.is_fee_unshielding,
                        e.block_height,
                        e.block_index as u64,
                        e.masp_tx_index,
                        e.note_position,
                    ),
                );
            }
            i += 1;
        }
        proof {
            assert(rows@.take(rows@.len() as int) =~= rows@);
        }
        r
    }
}

} // verus!
