use vstd::prelude::*;

verus! {

/// Error kinds surfaced by the indexer core.
///
/// `Storage` covers connection, serialization and transaction failures of
/// the persistence layer; `Rpc` covers network and decoding failures of the
/// consensus-node client, including the block-not-yet-final case that drives
/// the tip-waiting retry path; `Masp` covers leaf extraction or tree append
/// failures; `InvalidState` is the fatal startup-consistency refusal.
#[derive(Clone, Copy, Debug, PartialEq, Eq, Structural)]
pub enum IndexerError {
    Storage,
    Rpc,
    Masp,
    InvalidState,
}

impl IndexerError {
    /// A short human-readable label for the error kind.
    pub fn describe(&self) -> (r: &'static str)
        ensures
            self is Storage ==> r@ == "storage error"@,
            self is Rpc ==> r@ == "rpc error"@,
            self is Masp ==> r@ == "masp error"@,
            self is InvalidState ==> r@ == "invalid database state"@,
    {
        match self {
            IndexerError::Storage => "storage error",
            IndexerError::Rpc => "rpc error",
            IndexerError::Masp => "masp error",
            IndexerError::InvalidState => "invalid database state",
        }
    }
}

} // verus!
