//! The per-block note-position index: for each shielded output of the
//! block being processed, the absolute leaf position assigned when it was
//! appended, in insertion order.

use vstd::prelude::*;

use crate::blocks::IndexedTx;

verus! {

/// One row of the note-position index. The fee-unshielding marker is
/// reserved and always recorded as false by the current ingestion path.
#[derive(Clone, Copy, Debug, PartialEq, Eq, Structural)]
pub struct NoteEntry {
    pub is_fee_unshielding: bool,
    pub indexed_tx: IndexedTx,
    pub note_position: u64,
}

/// The note-position index of the block currently being processed.
pub struct TxNoteMap {
    entries: Vec<NoteEntry>,
}

impl TxNoteMap {
    /// The recorded rows, in insertion order.
    pub closed spec fn entries(&self) -> Seq<NoteEntry> {
        self.entries@
    }

    /// An empty index, as at the start of each block.
    pub fn new() -> (r: Self)
        ensures
            r.entries() == Seq::<NoteEntry>::empty(),
    {
        TxNoteMap { entries: Vec::new() }
    }

    /// Records the position assigned to one shielded output; the
    /// fee-unshielding marker is reserved and recorded as false.
    pub fn record(&mut self, indexed_tx: IndexedTx, note_position: u64)
        ensures
            final(self).entries() == old(self).entries().push(
                NoteEntry { is_fee_unshielding: false, indexed_tx, note_position },
            ),
    {
        self.entries.push(NoteEntry { is_fee_unshielding: false, indexed_tx, note_position });
    }

    /// Number of recorded rows.
    pub fn len(&self) -> (r: usize)
        ensures
            r == self.entries().len(),
    {
        self.entries.len()
    }

    /// The `i`-th recorded row.
    pub fn get(&self, i: usize) -> (r: NoteEntry)
        requires
            i < self.entries().len(),
        ensures
            r == self.entries()[i as int],
    {
        self.entries[i]
    }
}

} // verus!
