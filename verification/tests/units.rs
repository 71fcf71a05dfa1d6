use masp_indexer::error::IndexerError;
use masp_indexer::follower::{
    migration_retry_budget, migration_step, next_height, parse_u64_dec, MigrationStep,
};
use masp_indexer::merkle::combine_exec;
use masp_indexer::service::{AppState, NotesMapService};
use masp_indexer::storage::{ChainState, StorageState};
use masp_indexer::tree::CommitmentTree;
use masp_indexer::witness::{Witness, WitnessMap};

#[test]
fn combine_matches_its_formula() {
    let l = 0x0123_4567_89ab_cdefu64;
    let r = 0xfedc_ba98_7654_3210u64;
    let expected = (l.wrapping_mul(0x9E3779B97F4A7C15) ^ r.wrapping_mul(0xC2B2AE3D27D4EB4F))
        ^ 0x165667B19E3779F9;
    assert_eq!(combine_exec(l, r), expected);
    assert_eq!(
        combine_exec(0, 0),
        0x165667B19E3779F9,
        "zero children combine to the layer constant"
    );
}

#[test]
fn empty_tree_serializes_to_zero_count() {
    let t = CommitmentTree::new();
    assert_eq!(t.serialize(), vec![0u8; 8]);
}

#[test]
fn tree_round_trip_preserves_root_and_appends() {
    let mut t = CommitmentTree::new();
    for leaf in [10u64, 20, 30] {
        t.append(leaf).unwrap();
    }
    let bytes = t.serialize();
    let mut back = match CommitmentTree::deserialize(&bytes) {
        Ok(t) => t,
        Err(_) => panic!("round trip failed"),
    };
    assert_eq!(back.size(), 3);
    assert_eq!(back.root(), t.root());

    // The reloaded tree admits the same subsequent appends with the same
    // positions and the same roots.
    assert_eq!(t.append(40), Ok(3));
    assert_eq!(back.append(40), Ok(3));
    assert_eq!(back.root(), t.root());
}

#[test]
fn tree_deserialize_rejects_garbage() {
    assert!(matches!(
        CommitmentTree::deserialize(&vec![1u8, 2, 3]),
        Err(IndexerError::Storage)
    ));
    // A count that does not match the remaining length is refused too.
    let mut bytes = vec![0u8; 8];
    bytes[0] = 2;
    bytes.push(0);
    assert!(matches!(
        CommitmentTree::deserialize(&bytes),
        Err(IndexerError::Storage)
    ));
}

#[test]
fn witness_map_round_trip_preserves_witnesses() {
    let mut t = CommitmentTree::new();
    let mut wm = WitnessMap::new();
    for leaf in [5u64, 6] {
        let pos = t.append(leaf).unwrap();
        wm.update_all_on_append(&t);
        wm.insert(pos, Witness::new(t.witness_path(pos))).unwrap();
    }
    let bytes = wm.serialize();
    let back = match WitnessMap::deserialize(&bytes) {
        Ok(m) => m,
        Err(_) => panic!("round trip failed"),
    };
    assert_eq!(back.size(), 2);
    let root = t.root();
    for (pos, leaf) in [5u64, 6].into_iter().enumerate() {
        assert_eq!(wm.root_at(pos as u64, leaf), Ok(root));
        assert_eq!(back.root_at(pos as u64, leaf), Ok(root));
    }
}

#[test]
fn witness_map_deserialize_rejects_garbage() {
    assert!(matches!(
        WitnessMap::deserialize(&vec![9u8; 11]),
        Err(IndexerError::Storage)
    ));
}

#[test]
fn witness_map_insert_rejects_sparse_position() {
    let mut t = CommitmentTree::new();
    t.append(1).unwrap();
    let mut wm = WitnessMap::new();
    let w = Witness::new(t.witness_path(0));
    // Witness positions are dense: only the next position is accepted.
    assert_eq!(
        wm.insert(7, Witness::new(t.witness_path(0))),
        Err(IndexerError::Masp)
    );
    assert_eq!(wm.insert(0, w), Ok(()));
    assert_eq!(wm.size(), 1);
}

#[test]
fn startup_guard_refuses_mixed_state() {
    // Tree non-empty while the witness map is empty: invalid database.
    let mut t = CommitmentTree::new();
    t.append(42).unwrap();
    let wm = WitnessMap::new();
    let mut storage = StorageState::new();
    storage.commit(
        &ChainState::new(1),
        &t,
        &wm,
        &masp_indexer::notes::TxNoteMap::new(),
        &Vec::new(),
    );
    assert_eq!(
        storage.load_committed_state().map(|_| ()),
        Err(IndexerError::InvalidState)
    );

    // Witness map non-empty while the tree is empty: also invalid.
    let empty_tree = CommitmentTree::new();
    let mut t2 = CommitmentTree::new();
    t2.append(42).unwrap();
    let mut wm2 = WitnessMap::new();
    wm2.update_all_on_append(&t2);
    wm2.insert(0, Witness::new(t2.witness_path(0))).unwrap();
    let mut storage2 = StorageState::new();
    storage2.commit(
        &ChainState::new(1),
        &empty_tree,
        &wm2,
        &masp_indexer::notes::TxNoteMap::new(),
        &Vec::new(),
    );
    assert_eq!(
        storage2.load_committed_state().map(|_| ()),
        Err(IndexerError::InvalidState)
    );

    // Both empty and both non-empty are accepted.
    let storage3 = StorageState::new();
    assert!(storage3.load_committed_state().is_ok());
    let mut storage4 = StorageState::new();
    storage4.commit(
        &ChainState::new(1),
        &t2,
        &wm2,
        &masp_indexer::notes::TxNoteMap::new(),
        &Vec::new(),
    );
    assert!(storage4.load_committed_state().is_ok());
}

#[test]
fn parse_u64_dec_accepts_digits_and_rejects_the_rest() {
    assert_eq!(parse_u64_dec(&b"5".to_vec()), Some(5));
    assert_eq!(parse_u64_dec(&b"0".to_vec()), Some(0));
    assert_eq!(parse_u64_dec(&b"007".to_vec()), Some(7));
    assert_eq!(parse_u64_dec(&b"".to_vec()), None);
    assert_eq!(parse_u64_dec(&b"12a".to_vec()), None);
    assert_eq!(parse_u64_dec(&b"-3".to_vec()), None);
    assert_eq!(
        parse_u64_dec(&b"18446744073709551615".to_vec()),
        Some(u64::MAX)
    );
    assert_eq!(parse_u64_dec(&b"18446744073709551616".to_vec()), None);
}

#[test]
fn migration_budget_and_steps() {
    assert_eq!(migration_retry_budget(None), 5);
    assert_eq!(migration_retry_budget(Some(b"9".to_vec())), 9);
    assert_eq!(migration_retry_budget(Some(b"oops".to_vec())), 5);
    assert_eq!(migration_step(true, 0), MigrationStep::Done);
    assert_eq!(migration_step(false, 3), MigrationStep::Retry);
    assert_eq!(migration_step(false, 0), MigrationStep::GiveUp);
}

#[test]
fn next_height_walks_forward() {
    assert_eq!(next_height(None), Some(1));
    assert_eq!(next_height(Some(5)), Some(6));
    assert_eq!(next_height(Some(u64::MAX)), None);
}

#[test]
fn notes_map_service_filters_by_height() {
    let mut t = CommitmentTree::new();
    let mut wm = WitnessMap::new();
    let mut storage = StorageState::new();
    let mut notes = masp_indexer::notes::TxNoteMap::new();
    let itx1 = masp_indexer::blocks::IndexedTx {
        block_height: 1,
        block_index: 0,
        masp_tx_index: 0,
    };
    let itx2 = masp_indexer::blocks::IndexedTx {
        block_height: 2,
        block_index: 4,
        masp_tx_index: 1,
    };
    let pos0 = t.append(77).unwrap();
    wm.update_all_on_append(&t);
    wm.insert(pos0, Witness::new(t.witness_path(pos0))).unwrap();
    notes.record(itx1, pos0);
    let pos1 = t.append(88).unwrap();
    wm.update_all_on_append(&t);
    wm.insert(pos1, Witness::new(t.witness_path(pos1))).unwrap();
    notes.record(itx2, pos1);
    storage.commit(&ChainState::new(2), &t, &wm, &notes, &Vec::new());

    let service = NotesMapService::new(AppState::new(storage));
    let all = service.get_notes_map(0);
    assert_eq!(
        all,
        vec![(false, 1, 0, 0, 0), (false, 2, 4, 1, 1)]
    );
    let later = service.get_notes_map(2);
    assert_eq!(later, vec![(false, 2, 4, 1, 1)]);
    let none = service.get_notes_map(3);
    assert!(none.is_empty());
}

#[test]
fn error_kinds_describe_themselves() {
    assert_eq!(IndexerError::Storage.describe(), "storage error");
    assert_eq!(IndexerError::Rpc.describe(), "rpc error");
    assert_eq!(IndexerError::Masp.describe(), "masp error");
    assert_eq!(IndexerError::InvalidState.describe(), "invalid database state");
}

#[test]
fn storage_getters_decode_the_persisted_state() {
    let empty = StorageState::new();
    assert!(matches!(empty.get_last_commitment_tree(), Ok(None)));
    let wm0 = empty.get_last_witness_map().unwrap_or_else(|_| WitnessMap::new());
    assert_eq!(wm0.size(), 0);

    let mut t = CommitmentTree::new();
    let mut wm = WitnessMap::new();
    let pos = t.append(9).unwrap();
    wm.update_all_on_append(&t);
    wm.insert(pos, Witness::new(t.witness_path(pos))).unwrap();
    let mut storage = StorageState::new();
    storage.commit(
        &ChainState::new(1),
        &t,
        &wm,
        &masp_indexer::notes::TxNoteMap::new(),
        &Vec::new(),
    );
    let reloaded = match storage.get_last_commitment_tree() {
        Ok(Some(tree)) => tree,
        _ => panic!("expected a stored tree"),
    };
    assert_eq!(reloaded.size(), 1);
    assert_eq!(reloaded.root(), t.root());
    let wm_back = match storage.get_last_witness_map() {
        Ok(m) => m,
        Err(_) => panic!("expected a stored witness map"),
    };
    assert_eq!(wm_back.size(), 1);
    assert_eq!(wm_back.root_at(0, 9), Ok(reloaded.root()));
}
