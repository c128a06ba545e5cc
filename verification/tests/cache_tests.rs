use state_channel_node::hashing::Hash256;
use state_channel_node::utxo::cache::{CacheError, UtxoCache};
use state_channel_node::utxo::models::{Input, Output, Transaction};
use state_channel_node::utxo::store::SdbStore;

fn create_test_transaction() -> Transaction {
    // Create a test transaction with no inputs and two outputs
    let mut tx = Transaction {
        version: 1,
        inputs: vec![], // No inputs for coinbase-style tx
        outputs: vec![
            Output {
                value: 50_000_000,             // 0.5 BTC
                public_key_hash: vec![1; 20],  // Dummy pubkey hash
                lock_script: vec![],           // Empty lock script for testing
            },
            Output {
                value: 40_000_000, // 0.4 BTC
                public_key_hash: vec![2; 20],
                lock_script: vec![],
            },
        ],
        lock_time: 0,
        hash: Hash256::zero(), // Will be updated by calculate_hash
    };
    tx.hash = tx.calculate_hash();
    tx
}

fn fresh_db_path(name: &str) -> String {
    format!("/tmp/state_channel_node_{}_{}", name, rand::random::<u64>())
}

#[test]
fn test_add_transaction() {
    let store = SdbStore::new(&fresh_db_path("test_db")).unwrap();
    let mut cache = UtxoCache::new(store);

    let tx = create_test_transaction();

    // Add transaction to cache
    cache.add_transaction(&tx, Some(100)).unwrap();

    // Verify UTXOs were added
    for i in 0..tx.outputs.len() {
        let utxo = cache.get_utxo(tx.hash, i as u32).unwrap().unwrap();
        assert_eq!(utxo.block_height, 100);
        assert_eq!(utxo.tx_hash, tx.hash);
        assert_eq!(utxo.output_index, i as u32);
        assert!(utxo.is_confirmed);
    }
}

#[test]
fn test_confirm_transaction() {
    let store = SdbStore::new(&fresh_db_path("test_confirm")).unwrap();
    let mut cache = UtxoCache::new(store);

    let tx = create_test_transaction();

    // Added without a block height: unconfirmed at height 0.
    cache.add_transaction(&tx, None).unwrap();
    let utxo = cache.get_utxo(tx.hash, 0).unwrap().unwrap();
    assert!(!utxo.is_confirmed);
    assert_eq!(utxo.block_height, 0);

    cache.confirm_transaction(tx.hash, 42).unwrap();
    for i in 0..tx.outputs.len() {
        let utxo = cache.get_utxo(tx.hash, i as u32).unwrap().unwrap();
        assert!(utxo.is_confirmed);
        assert_eq!(utxo.block_height, 42);
    }
}

#[test]
fn test_remove_spent_atomicity() {
    let store = SdbStore::new(&fresh_db_path("test_atomic")).unwrap();
    let mut cache = UtxoCache::new(store);

    let tx = create_test_transaction();
    cache.add_transaction(&tx, Some(1)).unwrap();

    // One input refers to a real output, one to a missing output.
    let spending = Transaction {
        version: 1,
        inputs: vec![
            Input {
                previous_output: tx.hash,
                index: 0,
                signature: vec![1, 2, 3, 4],
                sequence: 0xffffffff,
            },
            Input {
                previous_output: tx.hash,
                index: 7, // No such output
                signature: vec![1, 2, 3, 4],
                sequence: 0xffffffff,
            },
        ],
        outputs: vec![],
        lock_time: 0,
        hash: Hash256::zero(),
    };

    let result = cache.remove_spent(&spending);
    assert!(matches!(result, Err(CacheError::UtxoNotFound(_, 7))));

    // The present input was not removed: the whole spend failed atomically.
    assert!(cache.get_utxo(tx.hash, 0).unwrap().is_some());
}

#[test]
fn test_store_len_tracks_outputs() {
    let path = fresh_db_path("test_len");
    let mut store = SdbStore::new(&path).unwrap();
    assert!(store.is_empty().unwrap());
    assert_eq!(store.len().unwrap(), 0);

    let tx = create_test_transaction();
    store.add_outputs(&tx).unwrap();
    assert_eq!(store.len().unwrap(), 2);
    assert!(!store.is_empty().unwrap());

    let input = Input {
        previous_output: tx.hash,
        index: 0,
        signature: vec![],
        sequence: 0,
    };
    assert!(store.contains_input(&input).unwrap());
    store.remove_inputs(&vec![input.clone()]).unwrap();
    assert!(!store.contains_input(&input).unwrap());
    assert_eq!(store.len().unwrap(), 1);
}
