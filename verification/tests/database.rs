use fuel_database::codec::{decode_byte_string, decode_bytes32, decode_pair, encode_byte_string, encode_bytes32, encode_pair};
use fuel_database::column::{Column, IterDirection, WriteOperation, COLUMN_COUNT};
use fuel_database::database::Database;
use fuel_database::error::{Error, KvStoreError, OtherError, TransactionError};
use fuel_database::keyspace::key_add;
use fuel_database::multikey::MultiKey;
use fuel_database::tables::{
    get_bytes32, init_contract_state, insert_bytes32, remove_bytes32, storage_contract_insert, storage_contract_root_insert,
};
use fuel_database::store::{BatchOperations, KeyValueStore, MemoryStore};
use fuel_database::transaction::Transaction;
use fuel_database::vm_database::{ConsensusHeader, VmDatabase};

#[test]
fn in_memory_database_starts_empty() {
    let db = Database::in_memory();
    assert_eq!(db.get(b"a", Column::Metadata).unwrap(), None);
    assert!(!db.contains_key(b"a", Column::Metadata).unwrap());
    assert!(db.iter_all(Column::Metadata, None, None, None).is_empty());
}

#[test]
fn default_database_is_in_memory_and_empty() {
    let db = Database::default();
    assert!(db.iter_all(Column::Coins, None, None, None).is_empty());
}

#[test]
fn insert_returns_previous_value_and_get_reads_it() {
    let mut db = Database::in_memory();
    assert_eq!(db.insert(b"k", Column::Coins, vec![1]).unwrap(), None);
    assert_eq!(db.insert(b"k", Column::Coins, vec![2]).unwrap(), Some(vec![1]));
    assert_eq!(db.get(b"k", Column::Coins).unwrap(), Some(vec![2]));
    assert!(db.contains_key(b"k", Column::Coins).unwrap());
}

#[test]
fn columns_are_separate() {
    let mut db = Database::in_memory();
    db.insert(b"k", Column::Coins, vec![1]).unwrap();
    assert_eq!(db.get(b"k", Column::Messages).unwrap(), None);
    assert!(!db.contains_key(b"k", Column::Receipts).unwrap());
}

#[test]
fn remove_returns_removed_value() {
    let mut db = Database::in_memory();
    db.insert(b"k", Column::Coins, vec![1]).unwrap();
    assert_eq!(db.remove(b"k", Column::Coins).unwrap(), Some(vec![1]));
    assert_eq!(db.remove(b"k", Column::Coins).unwrap(), None);
    assert_eq!(db.get(b"k", Column::Coins).unwrap(), None);
}

fn sample() -> Database {
    let mut db = Database::in_memory();
    for (k, v) in [
        (&b"b1"[..], 1u8),
        (b"a2", 2),
        (b"a1", 3),
        (b"a", 4),
        (b"c", 5),
        (b"a3", 6),
    ] {
        db.insert(k, Column::Metadata, vec![v]).unwrap();
    }
    db.insert(b"a0", Column::Coins, vec![9]).unwrap();
    db
}

fn keys(items: &[(Vec<u8>, Vec<u8>)]) -> Vec<Vec<u8>> {
    items.iter().map(|(k, _)| k.clone()).collect()
}

#[test]
fn iter_all_walks_keys_in_order() {
    let db = sample();
    let items = db.iter_all(Column::Metadata, None, None, None);
    assert_eq!(
        keys(&items),
        vec![b"a".to_vec(), b"a1".to_vec(), b"a2".to_vec(), b"a3".to_vec(), b"b1".to_vec(), b"c".to_vec()]
    );
    assert_eq!(items[1].1, vec![3]);
}

#[test]
fn iter_all_with_prefix_and_start() {
    let db = sample();
    let items = db.iter_all(Column::Metadata, Some(b"a".to_vec()), Some(b"a1".to_vec()), Some(IterDirection::Forward));
    assert_eq!(keys(&items), vec![b"a1".to_vec(), b"a2".to_vec(), b"a3".to_vec()]);
}

#[test]
fn iter_all_reverse_from_start() {
    let db = sample();
    let items = db.iter_all(Column::Metadata, Some(b"a".to_vec()), Some(b"a2".to_vec()), Some(IterDirection::Reverse));
    assert_eq!(keys(&items), vec![b"a2".to_vec(), b"a1".to_vec(), b"a".to_vec()]);
}

#[test]
fn reverse_walk_is_forward_walk_reversed() {
    let db = sample();
    let mut forward = db.iter_all(Column::Metadata, None, None, Some(IterDirection::Forward));
    let reverse = db.iter_all(Column::Metadata, None, None, Some(IterDirection::Reverse));
    forward.reverse();
    assert_eq!(forward, reverse);
}

#[test]
fn iter_direction_defaults_to_forward() {
    assert_eq!(IterDirection::default(), IterDirection::Forward);
}

#[test]
fn bytes32_values_round_trip() {
    let mut db = Database::in_memory();
    assert_eq!(insert_bytes32(&mut db, b"k", Column::ContractsState, &[3; 32]).unwrap(), None);
    assert_eq!(get_bytes32(&db, b"k", Column::ContractsState).unwrap(), Some([3; 32]));
    assert_eq!(insert_bytes32(&mut db, b"k", Column::ContractsState, &[4; 32]).unwrap(), Some([3; 32]));
    assert_eq!(remove_bytes32(&mut db, b"k", Column::ContractsState).unwrap(), Some([4; 32]));
    assert_eq!(get_bytes32(&db, b"k", Column::ContractsState).unwrap(), None);
}

#[test]
fn undecodable_bytes32_value_is_a_codec_error_after_the_write() {
    let mut db = Database::in_memory();
    db.insert(b"k", Column::ContractsState, vec![1, 2]).unwrap();
    assert!(matches!(get_bytes32(&db, b"k", Column::ContractsState), Err(Error::Codec)));
    assert!(matches!(insert_bytes32(&mut db, b"k", Column::ContractsState, &[5; 32]), Err(Error::Codec)));
    assert_eq!(get_bytes32(&db, b"k", Column::ContractsState).unwrap(), Some([5; 32]));
}

#[test]
fn contract_code_and_info_storage() {
    let mut db = Database::in_memory();
    let id = [1u8; 32];
    assert_eq!(storage_contract_insert(&mut db, &id, &[7, 8, 9]).unwrap(), None);
    assert_eq!(db.get(&id, Column::ContractsRawCode).unwrap(), Some(vec![3, 0, 0, 0, 0, 0, 0, 0, 7, 8, 9]));
    assert_eq!(storage_contract_insert(&mut db, &id, &[1]).unwrap(), Some(vec![7, 8, 9]));
    assert_eq!(storage_contract_root_insert(&mut db, &id, &[2; 32], &[3; 32]).unwrap(), None);
    assert_eq!(
        storage_contract_root_insert(&mut db, &id, &[4; 32], &[5; 32]).unwrap(),
        Some(([2; 32], [3; 32]))
    );
}

#[test]
fn init_contract_state_stores_each_slot() {
    let mut db = Database::in_memory();
    let id = [1u8; 32];
    init_contract_state(&mut db, &id, &[([0; 32], [1; 32]), ([2; 32], [3; 32])]).unwrap();
    let k = MultiKey::new(&(&id[..], &[2u8; 32][..]));
    assert_eq!(get_bytes32(&db, k.as_ref(), Column::ContractsState).unwrap(), Some([3; 32]));
}

#[test]
fn transaction_sees_its_own_writes_and_commits_them() {
    let mut db = sample();
    let mut tx = db.transaction();
    assert_eq!(tx.as_mut().put(b"a", Column::Metadata, vec![40]).unwrap(), Some(vec![4]));
    assert_eq!(tx.as_mut().delete(b"c", Column::Metadata).unwrap(), Some(vec![5]));
    assert_eq!(tx.as_ref().get(b"a", Column::Metadata).unwrap(), Some(vec![40]));
    assert_eq!(tx.as_ref().get(b"c", Column::Metadata).unwrap(), None);
    // The database is untouched until the transaction is committed.
    assert_eq!(db.get(b"a", Column::Metadata).unwrap(), Some(vec![4]));
    tx.commit(&mut db).unwrap();
    assert_eq!(db.get(b"a", Column::Metadata).unwrap(), Some(vec![40]));
    assert_eq!(db.get(b"c", Column::Metadata).unwrap(), None);
}

#[test]
fn dropped_transaction_changes_nothing() {
    let db = sample();
    {
        let mut tx = db.transaction();
        tx.as_mut().put(b"z", Column::Metadata, vec![1]).unwrap();
    }
    assert_eq!(db.get(b"z", Column::Metadata).unwrap(), None);
}

#[test]
fn transaction_trait_commits_on_success_only() {
    let mut db = sample();
    let ok: Result<u8, TransactionError> = Transaction::transaction(&mut db, |view| {
        view.put(b"new", Column::Metadata, vec![1]).unwrap();
        Ok(7)
    });
    assert_eq!(ok.unwrap(), 7);
    assert_eq!(db.get(b"new", Column::Metadata).unwrap(), Some(vec![1]));
    let failed: Result<u8, TransactionError> = Transaction::transaction(&mut db, |view| {
        view.put(b"other", Column::Metadata, vec![1]).unwrap();
        Err(TransactionError::Aborted)
    });
    assert!(matches!(failed, Err(TransactionError::Aborted)));
    assert_eq!(db.get(b"other", Column::Metadata).unwrap(), None);
}

#[test]
fn batch_write_applies_operations_in_order() {
    let mut store = MemoryStore::new();
    store
        .batch_write(vec![
            WriteOperation::Insert(b"a".to_vec(), Column::Coins, vec![1]),
            WriteOperation::Insert(b"b".to_vec(), Column::Coins, vec![2]),
            WriteOperation::Remove(b"a".to_vec(), Column::Coins),
            WriteOperation::Insert(b"b".to_vec(), Column::Coins, vec![3]),
        ])
        .unwrap();
    assert_eq!(store.get(b"a", Column::Coins).unwrap(), None);
    assert_eq!(store.get(b"b", Column::Coins).unwrap(), Some(vec![3]));
    assert!(store.contains_key(b"b", Column::Coins).unwrap());
}

#[test]
fn memory_store_clone_has_the_same_contents() {
    let mut store = MemoryStore::new();
    store.put(b"x", Column::Receipts, vec![1]).unwrap();
    let copy = store.clone();
    assert_eq!(copy.get(b"x", Column::Receipts).unwrap(), Some(vec![1]));
}

#[test]
fn multikey_concatenates_its_parts() {
    let k = MultiKey::new(&(&[1u8, 2][..], &[3u8][..]));
    assert_eq!(k.as_ref(), &[1, 2, 3]);
    assert_eq!(k.into_vec(), vec![1, 2, 3]);
}

#[test]
fn column_ids_are_distinct_and_below_the_count() {
    let columns = [
        Column::Metadata,
        Column::ContractsRawCode,
        Column::ContractsInfo,
        Column::ContractsState,
        Column::ContractsLatestUtxo,
        Column::ContractsAssets,
        Column::Coins,
        Column::OwnedCoins,
        Column::Transactions,
        Column::TransactionStatus,
        Column::TransactionsByOwnerBlockIdx,
        Column::Receipts,
        Column::FuelBlocks,
        Column::FuelBlockIds,
        Column::Messages,
        Column::OwnedMessageIds,
        Column::FuelBlockConsensus,
    ];
    assert_eq!(columns.len(), COLUMN_COUNT);
    for (i, c) in columns.iter().enumerate() {
        assert_eq!(c.id() as usize, i);
    }
}

#[test]
fn key_add_carries_across_bytes() {
    let mut k = [0u8; 32];
    k[31] = 0xff;
    let mut expected = [0u8; 32];
    expected[30] = 1;
    assert_eq!(key_add(&k, 1), Some(expected));
    assert_eq!(key_add(&[0; 32], 5).unwrap()[31], 5);
    assert_eq!(key_add(&[0xff; 32], 1), None);
    assert_eq!(key_add(&[0xff; 32], 0), Some([0xff; 32]));
}

#[test]
fn bytes32_codec() {
    let mut expected = vec![64, 0, 0, 0, 0, 0, 0, 0];
    for _ in 0..32 {
        expected.extend_from_slice(b"a6");
    }
    let mut v = [0xa6u8; 32];
    assert_eq!(encode_bytes32(&v).unwrap(), expected);
    assert_eq!(decode_bytes32(&expected).unwrap(), v);
    // Trailing bytes after the field are ignored.
    let mut long = expected.clone();
    long.extend_from_slice(&[2; 8]);
    assert_eq!(decode_bytes32(&long).unwrap(), v);
    // Upper-case digits and a `0x` prefix are read too.
    let mut text = vec![66, 0, 0, 0, 0, 0, 0, 0, b'0', b'x'];
    for _ in 0..32 {
        text.extend_from_slice(b"0F");
    }
    v = [0x0f; 32];
    assert_eq!(decode_bytes32(&text).unwrap(), v);
    // Too short, not hexadecimal, or not UTF-8.
    assert!(matches!(decode_bytes32(&[1; 31]), Err(Error::Codec)));
    let mut bad = expected.clone();
    bad[8] = b'g';
    assert!(matches!(decode_bytes32(&bad), Err(Error::Codec)));
    let mut invalid = vec![65, 0, 0, 0, 0, 0, 0, 0];
    for _ in 0..32 {
        invalid.extend_from_slice(b"00");
    }
    invalid.push(0xff);
    assert!(matches!(decode_bytes32(&invalid), Err(Error::Codec)));
    invalid[72] = b'z';
    assert_eq!(decode_bytes32(&invalid).unwrap(), [0; 32]);
}

#[test]
fn pair_codec() {
    let e = encode_pair(&[1; 32], &[0xff; 32]).unwrap();
    assert_eq!(e.len(), 144);
    assert_eq!(&e[..10], &[64, 0, 0, 0, 0, 0, 0, 0, b'0', b'1']);
    assert_eq!(&e[72..82], &[64, 0, 0, 0, 0, 0, 0, 0, b'f', b'f']);
    assert_eq!(decode_pair(&e).unwrap(), ([1; 32], [0xff; 32]));
    assert!(matches!(decode_pair(&e[..143]), Err(Error::Codec)));
}

#[test]
fn byte_string_codec() {
    assert_eq!(encode_byte_string(&[1, 2, 3]).unwrap(), vec![3, 0, 0, 0, 0, 0, 0, 0, 1, 2, 3]);
    assert_eq!(decode_byte_string(&[2, 0, 0, 0, 0, 0, 0, 0, 9, 8, 7]).unwrap(), vec![9, 8]);
    assert!(matches!(decode_byte_string(&[5, 0, 0, 0, 0, 0, 0, 0, 1]), Err(Error::Codec)));
}

#[test]
fn errors_convert_both_ways() {
    let e: KvStoreError = Error::Codec.into();
    assert!(matches!(e, KvStoreError::Error(ref inner) if matches!(**inner, Error::Codec)));
    let back: Error = KvStoreError::NotFound("Coin", "here").into();
    assert!(matches!(back, Error::DatabaseError(ref inner) if matches!(**inner, KvStoreError::NotFound("Coin", "here"))));
}

#[test]
fn vm_view_runs_on_a_transaction() {
    let mut db = Database::in_memory();
    let tx = db.transaction();
    let mut vm = VmDatabase::new(tx, &ConsensusHeader { height: 1, time: 2 }, [0; 32]);
    vm.merkle_contract_state_insert_range(&[1; 32], &[0; 32], &[[5; 32], [6; 32]]).unwrap();
    assert_eq!(
        vm.merkle_contract_state_range(&[1; 32], &[0; 32], 3).map_err(|_| ()),
        Ok(vec![Some([5; 32]), Some([6; 32]), None])
    );
    let tx = vm.into_database();
    assert_eq!(db.get(&[1u8; 64][..], Column::ContractsState).unwrap(), None);
    tx.commit(&mut db).unwrap();
    let mut key = vec![1u8; 32];
    key.extend_from_slice(&[0u8; 31]);
    key.push(1);
    assert_eq!(get_bytes32(&db, &key, Column::ContractsState).unwrap(), Some([6; 32]));
}

#[test]
fn other_error_messages() {
    assert_eq!(OtherError::KeyspaceExceeded.message(), "range op exceeded available keyspace");
    assert_eq!(OtherError::BlockHeightTooHigh.message(), "block height too high for timestamp");
    assert_eq!(OtherError::Message("disk full".to_string()).message(), "disk full");
}
