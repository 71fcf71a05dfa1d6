use masp_indexer::blocks::{BlockData, ShieldedTx, Transaction};
use masp_indexer::error::IndexerError;
use masp_indexer::follower::{
    build_and_commit_masp_data_at_height, must_exit, next_height, should_retry, ShutdownFlag,
};
use masp_indexer::storage::{ChainState, StorageState};

fn shielded(bytes: &[u8], outputs: &[u64]) -> ShieldedTx {
    ShieldedTx {
        bytes: bytes.to_vec(),
        outputs: outputs.to_vec(),
    }
}

fn block(height: u64, txs: Vec<(u32, Vec<ShieldedTx>)>) -> BlockData {
    BlockData {
        height,
        transactions: txs
            .into_iter()
            .map(|(idx, masp_txs)| (idx, Transaction { masp_txs }))
            .collect(),
    }
}

fn running() -> ShutdownFlag {
    ShutdownFlag { requested: false }
}

#[test]
fn s1_empty_chain_at_tip() {
    let mut storage = StorageState::new();
    let (last, mut tree, mut wm) = storage.load_committed_state().unwrap();
    assert_eq!(last, None);
    assert_eq!(tree.size(), 0);
    assert_eq!(wm.size(), 0);

    // Block 1 is not yet final: the attempt fails with an rpc error and
    // nothing is written; the follower would retry.
    let empty_block = block(1, vec![]);
    let flag = running();
    let r = build_and_commit_masp_data_at_height(
        1,
        &flag,
        false,
        &empty_block,
        true,
        &mut wm,
        &mut tree,
        &mut storage,
        &ChainState::new(1),
    );
    assert_eq!(r, Err(IndexerError::Rpc));
    assert!(should_retry(&flag));
    assert_eq!(storage.get_last_synced_block(), None);
    assert_eq!(storage.note_rows_ref().len(), 0);
    assert_eq!(storage.tx_rows_ref().len(), 0);

    // Shutdown: the attempt becomes a no-op success and the loop exits;
    // the database is still empty.
    let stopping = ShutdownFlag { requested: true };
    assert!(must_exit(&stopping));
    let r = build_and_commit_masp_data_at_height(
        1,
        &stopping,
        false,
        &empty_block,
        true,
        &mut wm,
        &mut tree,
        &mut storage,
        &ChainState::new(1),
    );
    assert_eq!(r, Ok(()));
    assert!(!should_retry(&stopping));
    assert_eq!(storage.get_last_synced_block(), None);
    assert_eq!(storage.note_rows_ref().len(), 0);
}

#[test]
fn s2_one_block_two_shielded_txs() {
    let mut storage = StorageState::new();
    let (_, mut tree, mut wm) = storage.load_committed_state().unwrap();
    let b = block(
        1,
        vec![
            (0, vec![shielded(b"first", &[11, 22])]),
            (2, vec![shielded(b"second", &[33])]),
        ],
    );
    let r = build_and_commit_masp_data_at_height(
        1,
        &running(),
        true,
        &b,
        true,
        &mut wm,
        &mut tree,
        &mut storage,
        &ChainState::new(1),
    );
    assert_eq!(r, Ok(()));
    assert_eq!(tree.size(), 3);
    assert_eq!(wm.size(), 3);
    assert_eq!(storage.get_last_synced_block(), Some(1));

    let rows = storage.note_rows_ref();
    let expect = [
        (false, 1u64, 0u32, 0u64, 0u64),
        (false, 1, 0, 0, 1),
        (false, 1, 2, 0, 2),
    ];
    assert_eq!(rows.len(), 3);
    for (row, e) in rows.iter().zip(expect.iter()) {
        assert_eq!(row.is_fee_unshielding, e.0);
        assert_eq!(row.block_height, e.1);
        assert_eq!(row.block_index, e.2);
        assert_eq!(row.masp_tx_index, e.3);
        assert_eq!(row.note_position, e.4);
    }

    let txs = storage.tx_rows_ref();
    assert_eq!(txs.len(), 2);
    assert_eq!(
        (txs[0].block_height, txs[0].block_index, txs[0].masp_tx_index),
        (1, 0, 0)
    );
    assert_eq!(txs[0].bytes, b"first".to_vec());
    assert_eq!(
        (txs[1].block_height, txs[1].block_index, txs[1].masp_tx_index),
        (1, 2, 0)
    );
    assert_eq!(txs[1].bytes, b"second".to_vec());
}

#[test]
fn s3_crash_between_appending_and_committing() {
    let b = block(1, vec![(0, vec![shielded(b"x", &[7, 8, 9])])]);

    // A run whose storage transaction fails after the in-memory appends.
    let mut storage = StorageState::new();
    let (_, mut tree, mut wm) = storage.load_committed_state().unwrap();
    let r = build_and_commit_masp_data_at_height(
        1,
        &running(),
        true,
        &b,
        false,
        &mut wm,
        &mut tree,
        &mut storage,
        &ChainState::new(1),
    );
    assert_eq!(r, Err(IndexerError::Storage));
    assert_eq!(storage.get_last_synced_block(), None);
    assert_eq!(storage.note_rows_ref().len(), 0);

    // The next attempt rolls back the partial work and succeeds; its root
    // equals the root of a clean run at that height.
    let r = build_and_commit_masp_data_at_height(
        1,
        &running(),
        true,
        &b,
        true,
        &mut wm,
        &mut tree,
        &mut storage,
        &ChainState::new(1),
    );
    assert_eq!(r, Ok(()));

    let mut clean_storage = StorageState::new();
    let (_, mut clean_tree, mut clean_wm) = clean_storage.load_committed_state().unwrap();
    let r = build_and_commit_masp_data_at_height(
        1,
        &running(),
        true,
        &b,
        true,
        &mut clean_wm,
        &mut clean_tree,
        &mut clean_storage,
        &ChainState::new(1),
    );
    assert_eq!(r, Ok(()));
    assert_eq!(tree.root(), clean_tree.root());
    assert_eq!(tree.size(), 3);
    assert_eq!(storage.get_last_synced_block(), Some(1));
}

#[test]
fn s4_transient_rpc_failure() {
    let mut storage = StorageState::new();
    let (_, mut tree, mut wm) = storage.load_committed_state().unwrap();
    let b = block(1, vec![(0, vec![shielded(b"tx", &[5])])]);
    let flag = running();
    for _ in 0..3 {
        let r = build_and_commit_masp_data_at_height(
            1,
            &flag,
            false,
            &b,
            true,
            &mut wm,
            &mut tree,
            &mut storage,
            &ChainState::new(1),
        );
        assert_eq!(r, Err(IndexerError::Rpc));
        assert!(should_retry(&flag));
        assert_eq!(storage.get_last_synced_block(), None);
    }
    let r = build_and_commit_masp_data_at_height(
        1,
        &flag,
        true,
        &b,
        true,
        &mut wm,
        &mut tree,
        &mut storage,
        &ChainState::new(1),
    );
    assert_eq!(r, Ok(()));
    assert_eq!(storage.get_last_synced_block(), Some(1));
    assert_eq!(next_height(Some(1)), Some(2));
}

#[test]
fn s5_cancellation_mid_retry() {
    let mut storage = StorageState::new();
    let (_, mut tree, mut wm) = storage.load_committed_state().unwrap();
    let b = block(1, vec![(0, vec![shielded(b"tx", &[5])])]);
    let flag = running();
    let r = build_and_commit_masp_data_at_height(
        1,
        &flag,
        false,
        &b,
        true,
        &mut wm,
        &mut tree,
        &mut storage,
        &ChainState::new(1),
    );
    assert_eq!(r, Err(IndexerError::Rpc));

    // Shutdown arrives while the loop sleeps between retries: the retry
    // predicate refuses another attempt and nothing was written for the
    // in-progress height.
    let stopping = ShutdownFlag { requested: true };
    assert!(!should_retry(&stopping));
    assert_eq!(storage.get_last_synced_block(), None);
    assert_eq!(storage.note_rows_ref().len(), 0);
    assert_eq!(storage.tx_rows_ref().len(), 0);
}

#[test]
fn s6_resume_from_non_empty_state() {
    // Preload the database with a commit for block 10 holding two notes.
    let mut storage = StorageState::new();
    let (_, mut tree, mut wm) = storage.load_committed_state().unwrap();
    let b10 = block(10, vec![(0, vec![shielded(b"old", &[100, 200])])]);
    let r = build_and_commit_masp_data_at_height(
        10,
        &running(),
        true,
        &b10,
        true,
        &mut wm,
        &mut tree,
        &mut storage,
        &ChainState::new(10),
    );
    assert_eq!(r, Ok(()));
    drop(tree);
    drop(wm);

    // Restart: load the committed state back.
    let (last, mut tree, mut wm) = storage.load_committed_state().unwrap();
    assert_eq!(last, Some(10));
    let k = tree.size();
    assert_eq!(k, 2);
    assert_eq!(wm.size(), 2);

    // Process block 11 with one commitment.
    let b11 = block(11, vec![(1, vec![shielded(b"new", &[300])])]);
    let r = build_and_commit_masp_data_at_height(
        11,
        &running(),
        true,
        &b11,
        true,
        &mut wm,
        &mut tree,
        &mut storage,
        &ChainState::new(11),
    );
    assert_eq!(r, Ok(()));
    assert_eq!(tree.size(), k + 1);
    assert_eq!(wm.size(), k + 1);
    assert_eq!(storage.get_last_synced_block(), Some(11));

    // Every witness — the old ones updated for the new leaf, and the new
    // one — verifies its leaf against the current root.
    let leaves = [100u64, 200, 300];
    let root = tree.root();
    for (pos, leaf) in leaves.iter().enumerate() {
        assert_eq!(wm.root_at(pos as u64, *leaf), Ok(root));
    }
}

#[test]
fn monotone_progress_across_commits() {
    let mut storage = StorageState::new();
    let (_, mut tree, mut wm) = storage.load_committed_state().unwrap();
    let mut previous: Option<u64> = None;
    for h in 1..=3u64 {
        let b = block(h, vec![(0, vec![shielded(b"t", &[h])])]);
        let r = build_and_commit_masp_data_at_height(
            h,
            &running(),
            true,
            &b,
            true,
            &mut wm,
            &mut tree,
            &mut storage,
            &ChainState::new(h),
        );
        assert_eq!(r, Ok(()));
        let now = storage.get_last_synced_block();
        assert_eq!(now, Some(h));
        assert!(previous.map_or(true, |p| p < h));
        previous = now;
    }
}

fn run_block_once() -> (StorageState, u64) {
    let mut storage = StorageState::new();
    let (_, mut tree, mut wm) = storage.load_committed_state().unwrap();
    let b = block(
        1,
        vec![(0, vec![shielded(b"a", &[1, 2]), shielded(b"b", &[3])])],
    );
    let r = build_and_commit_masp_data_at_height(
        1,
        &running(),
        true,
        &b,
        true,
        &mut wm,
        &mut tree,
        &mut storage,
        &ChainState::new(1),
    );
    assert_eq!(r, Ok(()));
    let root = tree.root();
    (storage, root)
}

#[test]
fn replay_determinism_same_rows_and_roots() {
    let (s1, r1) = run_block_once();
    let (s2, r2) = run_block_once();
    assert_eq!(r1, r2);
    assert_eq!(s1.tree_bytes_ref(), s2.tree_bytes_ref());
    assert_eq!(s1.witness_bytes_ref(), s2.witness_bytes_ref());
    assert_eq!(s1.note_rows_ref().len(), s2.note_rows_ref().len());
    for (a, b) in s1.note_rows_ref().iter().zip(s2.note_rows_ref().iter()) {
        assert_eq!(a, b);
    }
}
