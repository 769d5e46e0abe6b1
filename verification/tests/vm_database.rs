use fuel_database::column::Column;
use fuel_database::database::Database;
use fuel_database::error::{Error, OtherError};
use fuel_database::multikey::MultiKey;
use fuel_database::tables::insert_bytes32;
use fuel_database::vm_database::{ConsensusHeader, FuelBlockTrait, VmDatabase};

const fn key(k: u8) -> [u8; 32] {
    [
        0, 0, 0, 0, 0, 0, 0, 0, 0, 0, 0, 0, 0, 0, 0, 0, 0, 0, 0, 0, 0, 0, 0, 0, 0, 0, 0, 0, 0,
        0, 0, k,
    ]
}

const MAX_KEY: [u8; 32] = [0xff; 32];
const CONTRACT: [u8; 32] = [0u8; 32];

fn prefilled(slots: &[([u8; 32], [u8; 32])]) -> VmDatabase<Database> {
    let mut db = VmDatabase::<Database>::default();
    for (k, v) in slots {
        let mk = MultiKey::new(&(&CONTRACT[..], &k[..]));
        insert_bytes32(db.database_mut(), mk.as_ref(), Column::ContractsState, v)
            .unwrap();
    }
    db
}

fn read_sequential_range(
    prefilled_slots: &[([u8; 32], [u8; 32])],
    start_key: [u8; 32],
    range: usize,
) -> Result<Vec<Option<[u8; 32]>>, ()> {
    let db = prefilled(prefilled_slots);
    db.merkle_contract_state_range(&CONTRACT, &start_key, range)
        .map_err(|_| ())
}

#[test]
fn read_single_uninitialized_value() {
    assert_eq!(read_sequential_range(&[], key(0), 1), Ok(vec![None]));
}

#[test]
fn read_single_initialized_value() {
    assert_eq!(
        read_sequential_range(&[(key(0), [0; 32])], key(0), 1),
        Ok(vec![Some([0; 32])])
    );
}

#[test]
fn read_uninitialized_range() {
    assert_eq!(read_sequential_range(&[], key(0), 3), Ok(vec![None, None, None]));
}

#[test]
fn read_uninitialized_start_range() {
    assert_eq!(
        read_sequential_range(&[(key(1), [1; 32]), (key(2), [2; 32])], key(0), 3),
        Ok(vec![None, Some([1; 32]), Some([2; 32])])
    );
}

#[test]
fn read_uninitialized_middle_range() {
    assert_eq!(
        read_sequential_range(&[(key(0), [0; 32]), (key(2), [2; 32])], key(0), 3),
        Ok(vec![Some([0; 32]), None, Some([2; 32])])
    );
}

#[test]
fn read_uninitialized_end_range() {
    assert_eq!(
        read_sequential_range(&[(key(0), [0; 32]), (key(1), [1; 32])], key(0), 3),
        Ok(vec![Some([0; 32]), Some([1; 32]), None])
    );
}

#[test]
fn read_fully_initialized_range() {
    assert_eq!(
        read_sequential_range(
            &[(key(0), [0; 32]), (key(1), [1; 32]), (key(2), [2; 32])],
            key(0),
            3
        ),
        Ok(vec![Some([0; 32]), Some([1; 32]), Some([2; 32])])
    );
}

#[test]
fn read_subset_of_initialized_range() {
    assert_eq!(
        read_sequential_range(
            &[(key(0), [0; 32]), (key(1), [1; 32]), (key(2), [2; 32])],
            key(0),
            2
        ),
        Ok(vec![Some([0; 32]), Some([1; 32])])
    );
}

#[test]
fn read_subset_of_partially_set_range_without_running_too_far() {
    assert_eq!(
        read_sequential_range(&[(key(0), [0; 32]), (key(2), [2; 32])], key(0), 2),
        Ok(vec![Some([0; 32]), None])
    );
}

#[test]
fn read_fails_on_uninitialized_range_if_keyspace_exceeded() {
    assert_eq!(read_sequential_range(&[], MAX_KEY, 2), Err(()));
}

#[test]
fn read_fails_on_partially_initialized_range_if_keyspace_exceeded() {
    assert_eq!(read_sequential_range(&[(MAX_KEY, [0; 32])], MAX_KEY, 2), Err(()));
}

#[test]
fn read_of_zero_slots_is_empty_even_at_the_last_key() {
    assert_eq!(read_sequential_range(&[], MAX_KEY, 0), Ok(vec![]));
}

#[test]
fn read_of_one_slot_at_the_last_key_fails() {
    let db = prefilled(&[]);
    let r = db.merkle_contract_state_range(&CONTRACT, &MAX_KEY, 1);
    assert!(matches!(r, Err(Error::Other(OtherError::KeyspaceExceeded))));
}

#[test]
fn read_ignores_other_contracts() {
    let mut db = prefilled(&[(key(1), [1; 32])]);
    let other = [7u8; 32];
    let mk = MultiKey::new(&(&other[..], &key(0)[..]));
    insert_bytes32(db.database_mut(), mk.as_ref(), Column::ContractsState, &[9; 32])
        .unwrap();
    assert_eq!(
        db.merkle_contract_state_range(&CONTRACT, &key(0), 2).map_err(|_| ()),
        Ok(vec![None, Some([1; 32])])
    );
}

#[test]
fn read_reports_undecodable_value_in_range() {
    let mut db = prefilled(&[(key(0), [0; 32])]);
    let mk = MultiKey::new(&(&CONTRACT[..], &key(1)[..]));
    db.database_mut().insert(mk.as_ref(), Column::ContractsState, vec![1, 2, 3])
        .unwrap();
    let r = db.merkle_contract_state_range(&CONTRACT, &key(0), 2);
    assert!(matches!(r, Err(Error::Codec)));
}

#[test]
fn read_looks_at_the_first_stored_slot_past_the_range() {
    // The walk reads the first stored slot after a gap that ends the range.
    let mut db = prefilled(&[(key(0), [0; 32])]);
    let mk = MultiKey::new(&(&CONTRACT[..], &key(5)[..]));
    db.database_mut().insert(mk.as_ref(), Column::ContractsState, vec![1])
        .unwrap();
    let r = db.merkle_contract_state_range(&CONTRACT, &key(0), 2);
    assert!(matches!(r, Err(Error::Codec)));
    // A range that ends on a stored slot stops there.
    let r = db.merkle_contract_state_range(&CONTRACT, &key(0), 1);
    assert_eq!(r.map_err(|_| ()), Ok(vec![Some([0; 32])]));
}

fn insert_range(
    prefilled_slots: &[([u8; 32], [u8; 32])],
    start_key: [u8; 32],
    insertion_range: &[[u8; 32]],
) -> Result<bool, ()> {
    let mut db = prefilled(prefilled_slots);
    let insert_status = db
        .merkle_contract_state_insert_range(&CONTRACT, &start_key, insertion_range)
        .map_err(|_| ())
        .map(|v| v.is_some());

    let mut results = Vec::new();
    let mut current = start_key;
    for _ in 0..insertion_range.len() {
        if let Some(v) = db.merkle_contract_state(&CONTRACT, &current).unwrap() {
            results.push(v);
        }
        match increment(current) {
            Some(next) => current = next,
            None => break,
        }
    }
    if insert_status.is_ok() {
        assert_eq!(insertion_range, &results[..]);
    } else {
        assert_eq!(results.len(), 0);
    }
    insert_status
}

fn increment(mut k: [u8; 32]) -> Option<[u8; 32]> {
    for i in (0..32).rev() {
        if k[i] == 0xff {
            k[i] = 0;
        } else {
            k[i] += 1;
            return Some(k);
        }
    }
    None
}

#[test]
fn insert_single_value_over_uninitialized_range() {
    assert_eq!(insert_range(&[], key(0), &[[1; 32]]), Ok(false));
}

#[test]
fn insert_single_value_over_initialized_range() {
    assert_eq!(insert_range(&[(key(0), [0; 32])], key(0), &[[1; 32]]), Ok(true));
}

#[test]
fn insert_multiple_slots_over_uninitialized_range() {
    assert_eq!(insert_range(&[], key(0), &[[1; 32], [2; 32]]), Ok(false));
}

#[test]
fn insert_multiple_slots_with_uninitialized_start_of_the_range() {
    assert_eq!(
        insert_range(&[(key(1), [0; 32]), (key(2), [0; 32])], key(0), &[[1; 32], [2; 32], [3; 32]]),
        Ok(false)
    );
}

#[test]
fn insert_multiple_slots_with_uninitialized_middle_of_the_range() {
    assert_eq!(
        insert_range(&[(key(0), [0; 32]), (key(2), [0; 32])], key(0), &[[1; 32], [2; 32], [3; 32]]),
        Ok(false)
    );
}

#[test]
fn insert_multiple_slots_with_uninitialized_end_of_the_range() {
    assert_eq!(
        insert_range(&[(key(0), [0; 32]), (key(1), [0; 32])], key(0), &[[1; 32], [2; 32], [3; 32]]),
        Ok(false)
    );
}

#[test]
fn insert_multiple_slots_over_initialized_range() {
    assert_eq!(
        insert_range(
            &[(key(0), [0; 32]), (key(1), [0; 32]), (key(2), [0; 32])],
            key(0),
            &[[1; 32], [2; 32], [3; 32]]
        ),
        Ok(true)
    );
}

#[test]
fn insert_multiple_slots_over_sub_range_of_prefilled_data() {
    assert_eq!(
        insert_range(
            &[(key(0), [0; 32]), (key(1), [0; 32]), (key(2), [0; 32]), (key(3), [0; 32])],
            key(1),
            &[[1; 32], [2; 32]]
        ),
        Ok(true)
    );
}

#[test]
fn insert_fails_if_start_key_plus_range_exceeds_keyspace() {
    assert_eq!(insert_range(&[], MAX_KEY, &[[1; 32], [2; 32]]), Err(()));
}

#[test]
fn insert_of_one_value_at_the_last_key_fails_and_writes_nothing() {
    let mut db = prefilled(&[]);
    let r = db.merkle_contract_state_insert_range(&CONTRACT, &MAX_KEY, &[[1; 32]]);
    assert!(matches!(r, Err(Error::Other(OtherError::KeyspaceExceeded))));
    assert_eq!(db.merkle_contract_state(&CONTRACT, &MAX_KEY).unwrap(), None);
}

#[test]
fn insert_stops_at_an_undecodable_old_value() {
    let mut db = prefilled(&[]);
    let mk = MultiKey::new(&(&CONTRACT[..], &key(1)[..]));
    db.database_mut().insert(mk.as_ref(), Column::ContractsState, vec![5])
        .unwrap();
    let r = db.merkle_contract_state_insert_range(&CONTRACT, &key(0), &[[1; 32], [2; 32], [3; 32]]);
    assert!(matches!(r, Err(Error::Codec)));
    // The slots up to the undecodable one are written, the later ones are not.
    assert_eq!(db.merkle_contract_state(&CONTRACT, &key(0)).unwrap(), Some([1; 32]));
    assert_eq!(db.merkle_contract_state(&CONTRACT, &key(1)).unwrap(), Some([2; 32]));
    assert_eq!(db.merkle_contract_state(&CONTRACT, &key(2)).unwrap(), None);
}

#[test]
fn read_after_insert_range_gives_back_the_values() {
    let mut db = prefilled(&[(key(1), [9; 32])]);
    let values = [[1; 32], [2; 32], [3; 32]];
    db.merkle_contract_state_insert_range(&CONTRACT, &key(4), &values).unwrap();
    assert_eq!(
        db.merkle_contract_state_range(&CONTRACT, &key(4), 3).map_err(|_| ()),
        Ok(vec![Some([1; 32]), Some([2; 32]), Some([3; 32])])
    );
}

fn remove_range(
    prefilled_slots: &[([u8; 32], [u8; 32])],
    start_key: [u8; 32],
    remove_count: usize,
) -> (Vec<[u8; 32]>, bool) {
    let mut db = prefilled(prefilled_slots);
    let remove_status = db
        .merkle_contract_state_remove_range(&CONTRACT, &start_key, remove_count)
        .unwrap()
        .is_some();
    let mut results = Vec::new();
    let mut current = Some(start_key);
    for _ in 0..remove_count {
        let Some(k) = current else { break };
        if let Some(v) = db.merkle_contract_state(&CONTRACT, &k).unwrap() {
            results.push(v);
        }
        current = increment(k);
    }
    (results, remove_status)
}

#[test]
fn remove_single_value_over_uninitialized_range() {
    assert_eq!(remove_range(&[], [0; 32], 1), (vec![], false));
}

#[test]
fn remove_single_value_over_initialized_range() {
    assert_eq!(remove_range(&[([0; 32], [0; 32])], [0; 32], 1), (vec![], true));
}

#[test]
fn remove_multiple_slots_over_uninitialized_range() {
    assert_eq!(remove_range(&[], [0; 32], 2), (vec![], false));
}

#[test]
fn remove_multiple_slots_over_initialized_range() {
    assert_eq!(
        remove_range(&[([0; 32], [0; 32]), (key(1), [0; 32])], [0; 32], 2),
        (vec![], true)
    );
}

#[test]
fn remove_multiple_slots_over_partially_uninitialized_start_range() {
    assert_eq!(
        remove_range(&[(key(1), [0; 32]), (key(2), [0; 32])], [0; 32], 3),
        (vec![], false)
    );
}

#[test]
fn remove_multiple_slots_over_partially_uninitialized_end_range() {
    assert_eq!(
        remove_range(&[([0; 32], [0; 32]), (key(1), [0; 32])], [0; 32], 3),
        (vec![], false)
    );
}

#[test]
fn remove_multiple_slots_over_partially_uninitialized_middle_range() {
    assert_eq!(
        remove_range(&[([0; 32], [0; 32]), (key(2), [0; 32])], [0; 32], 3),
        (vec![], false)
    );
}

#[test]
fn remove_past_the_last_key_removes_up_to_it_and_fails() {
    let mut before_max = MAX_KEY;
    before_max[31] = 0xfe;
    let mut db = prefilled(&[(before_max, [1; 32]), (MAX_KEY, [2; 32])]);
    let r = db.merkle_contract_state_remove_range(&CONTRACT, &before_max, 3);
    assert!(matches!(r, Err(Error::Other(OtherError::KeyspaceExceeded))));
    assert_eq!(db.merkle_contract_state(&CONTRACT, &before_max).unwrap(), None);
    assert_eq!(db.merkle_contract_state(&CONTRACT, &MAX_KEY).unwrap(), None);
}

#[test]
fn remove_keeps_slots_outside_the_range() {
    let mut db = prefilled(&[(key(0), [0; 32]), (key(1), [1; 32]), (key(2), [2; 32])]);
    db.merkle_contract_state_remove_range(&CONTRACT, &key(1), 1).unwrap();
    assert_eq!(
        db.merkle_contract_state_range(&CONTRACT, &key(0), 3).map_err(|_| ()),
        Ok(vec![Some([0; 32]), None, Some([2; 32])])
    );
}

struct Blocks;

impl FuelBlockTrait for Blocks {
    fn block_time(&self, height: u32) -> Result<u64, Error> {
        Ok(1000 + height as u64)
    }

    fn get_block_id(&self, height: u32) -> Result<Option<[u8; 32]>, Error> {
        if height == 3 {
            Ok(None)
        } else {
            Ok(Some([height as u8; 32]))
        }
    }
}

fn at_height_five() -> VmDatabase<Blocks> {
    VmDatabase::new(Blocks, &ConsensusHeader { height: 5, time: 77 }, [4; 32])
}

#[test]
fn header_fields_are_reported() {
    let db = at_height_five();
    assert_eq!(db.block_height().unwrap(), 5);
    assert_eq!(db.coinbase().unwrap(), [4; 32]);
}

#[test]
fn timestamp_of_current_past_and_future_blocks() {
    let db = at_height_five();
    assert_eq!(db.timestamp(5).unwrap(), 77);
    assert_eq!(db.timestamp(2).unwrap(), 1002);
    assert!(matches!(db.timestamp(6), Err(Error::Other(OtherError::BlockHeightTooHigh))));
}

#[test]
fn block_hash_is_zero_at_genesis_and_from_the_current_block_on() {
    let db = at_height_five();
    assert_eq!(db.block_hash(0).unwrap(), [0; 32]);
    assert_eq!(db.block_hash(5).unwrap(), [0; 32]);
    assert_eq!(db.block_hash(9).unwrap(), [0; 32]);
    assert_eq!(db.block_hash(2).unwrap(), [2; 32]);
}

#[test]
fn block_hash_of_a_missing_block_is_not_found() {
    let db = at_height_five();
    match db.block_hash(3) {
        Err(Error::DatabaseError(e)) => {
            assert!(matches!(*e, fuel_database::error::KvStoreError::NotFound("BlockId", _)))
        }
        other => panic!("unexpected {:?}", other),
    }
}

#[test]
fn default_view_is_at_height_zero_with_zero_coinbase() {
    let db = VmDatabase::<Database>::default_from_database(Database::in_memory());
    assert_eq!(db.block_height().unwrap(), 0);
    assert_eq!(db.coinbase().unwrap(), [0; 32]);
}

#[test]
fn read_skips_a_shorter_state_key_whose_number_lies_before_the_slots() {
    let mut db = prefilled(&[(key(5), [5; 32])]);
    let mut short = CONTRACT.to_vec();
    short.extend_from_slice(&[0, 0, 0, 0, 0, 0, 0, 1]);
    insert_bytes32(db.database_mut(), &short, Column::ContractsState, &[1; 32]).unwrap();
    assert_eq!(db.merkle_contract_state_range(&CONTRACT, &key(5), 1).map_err(|_| ()), Ok(vec![Some([5; 32])]));
    assert_eq!(db.merkle_contract_state_range(&CONTRACT, &key(5), 0).map_err(|_| ()), Ok(vec![]));
    // Past slot 5 the walk reaches the shorter key, whose number 1 lies
    // before the next slot: it gives nothing, and slot 6 is `None`.
    assert_eq!(
        db.merkle_contract_state_range(&CONTRACT, &key(5), 2).map_err(|_| ()),
        Ok(vec![Some([5; 32]), None])
    );
}

#[test]
fn read_takes_a_shorter_state_key_as_the_slot_of_its_number() {
    let mut db = prefilled(&[]);
    let mut short = CONTRACT.to_vec();
    short.extend_from_slice(&[0, 0, 0, 0, 0, 0, 0, 6]);
    insert_bytes32(db.database_mut(), &short, Column::ContractsState, &[6; 32]).unwrap();
    assert_eq!(
        db.merkle_contract_state_range(&CONTRACT, &key(5), 2).map_err(|_| ()),
        Ok(vec![None, Some([6; 32])])
    );
}

#[test]
fn read_fails_on_a_state_key_longer_than_64_bytes() {
    let mut db = prefilled(&[]);
    let mut long = CONTRACT.to_vec();
    long.extend_from_slice(&key(7));
    long.push(0);
    insert_bytes32(db.database_mut(), &long, Column::ContractsState, &[1; 32]).unwrap();
    let r = db.merkle_contract_state_range(&CONTRACT, &key(0), 1);
    assert!(matches!(r, Err(Error::Codec)));
}

#[test]
fn view_at_a_given_time() {
    let v = VmDatabase::at_time(Database::in_memory(), 77);
    assert_eq!(v.block_height().unwrap(), 0);
    assert_eq!(v.coinbase().unwrap(), [0; 32]);
    let db = v.into_database();
    assert_eq!(db.get(b"k", Column::Metadata).unwrap(), None);
}

#[test]
fn insert_range_twice_reports_all_set_and_changes_nothing() {
    let mut db = prefilled(&[(key(3), [3; 32])]);
    let values = [[7u8; 32], [8u8; 32]];
    assert_eq!(db.merkle_contract_state_insert_range(&CONTRACT, &key(2), &values).unwrap(), None);
    let before = db.merkle_contract_state_range(&CONTRACT, &key(0), 5).unwrap();
    assert_eq!(db.merkle_contract_state_insert_range(&CONTRACT, &key(2), &values).unwrap(), Some(()));
    let after = db.merkle_contract_state_range(&CONTRACT, &key(0), 5).unwrap();
    assert_eq!(before, after);
    assert_eq!(after, vec![None, None, Some([7; 32]), Some([8; 32]), None]);
}

#[test]
fn remove_range_undoes_an_insert_into_empty_slots() {
    let mut db = prefilled(&[(key(0), [1; 32]), (key(4), [4; 32])]);
    let before = db.merkle_contract_state_range(&CONTRACT, &key(0), 5).unwrap();
    let values = [[9u8; 32], [10u8; 32], [11u8; 32]];
    assert_eq!(db.merkle_contract_state_insert_range(&CONTRACT, &key(1), &values).unwrap(), None);
    assert_eq!(db.merkle_contract_state_remove_range(&CONTRACT, &key(1), 3).unwrap(), Some(()));
    assert_eq!(db.merkle_contract_state_range(&CONTRACT, &key(0), 5).unwrap(), before);
}
