//! End-to-end tests of the paged backend: the round-trip, locking,
//! ordering, counting, idempotence and version-check behaviour of the
//! storage contract.

use pristine_storage::error::{err_into, Error, SanakirjaError};
use pristine_storage::pristine::Pristine;
use pristine_storage::store::SanakirjaStorage;
use pristine_storage::types::{Key, RowEntry, Schema};

fn schema(name: &[u8], has_pk: bool, payload: &[u8]) -> Schema {
    Schema { table_name: name.to_vec(), has_primary_key: has_pk, payload: payload.to_vec() }
}

fn entry(key: i64, row: &[u8]) -> RowEntry {
    RowEntry { key: Key::I64(key), row: row.to_vec() }
}

#[test]
fn round_trip_schema_through_file_image() {
    let mut s = SanakirjaStorage::new();
    s.insert_schema(schema(b"people", true, b"id INTEGER PRIMARY KEY")).unwrap();
    let bytes = s.pristine.save_to_bytes();

    let s2 = SanakirjaStorage::from_bytes(&bytes).unwrap();
    let got = s2.fetch_schema(&b"people".to_vec()).unwrap().unwrap();
    assert_eq!(got.table_name, b"people".to_vec());
    assert!(got.has_primary_key);
    assert_eq!(got.payload, b"id INTEGER PRIMARY KEY".to_vec());

    let bytes2 = s2.pristine.save_to_bytes();
    assert_eq!(bytes, bytes2);
}

#[test]
fn round_trip_rows_through_file_image() {
    let mut s = SanakirjaStorage::new();
    s.insert_schema(schema(b"t", true, b"")).unwrap();
    s.insert_data(&b"t".to_vec(), vec![entry(7, b"seven"), entry(2, b"two")]).unwrap();
    let bytes = s.pristine.save_to_bytes();

    let s2 = SanakirjaStorage::from_bytes(&bytes).unwrap();
    let rows = s2.scan_data(&b"t".to_vec()).unwrap();
    assert_eq!(rows.len(), 2);
    assert!(matches!(rows[0].key, Key::I64(2)));
    assert_eq!(rows[0].row, b"two".to_vec());
    assert!(matches!(rows[1].key, Key::I64(7)));
    assert_eq!(rows[1].row, b"seven".to_vec());
}

#[test]
fn second_writer_fails_until_first_closes() {
    let mut env = Pristine::new();
    let first = env.mut_txn_begin().unwrap();
    let second = env.mut_txn_begin();
    assert!(matches!(second, Err(SanakirjaError::PristineLocked)));
    first.commit(&mut env);
    let third = env.mut_txn_begin();
    assert!(third.is_ok());
}

#[test]
fn abort_has_no_observable_effect() {
    let mut env = Pristine::new();
    let mut txn = env.mut_txn_begin().unwrap();
    txn.insert_schema(schema(b"t", false, b"x")).unwrap();
    txn.commit(&mut env);

    let mut txn2 = env.mut_txn_begin().unwrap();
    txn2.insert_schema(schema(b"u", false, b"y")).unwrap();
    txn2.abort(&mut env);

    let read = env.txn_begin().unwrap();
    assert!(read.fetch_schema(&b"t".to_vec()).is_some());
    assert!(read.fetch_schema(&b"u".to_vec()).is_none());
}

#[test]
fn scan_returns_rows_in_key_order() {
    let mut s = SanakirjaStorage::new();
    s.insert_schema(schema(b"t", true, b"")).unwrap();
    s.insert_data(
        &b"t".to_vec(),
        vec![entry(5, b"e"), entry(1, b"a"), entry(3, b"c")],
    )
    .unwrap();
    let rows = s.scan_data(&b"t".to_vec()).unwrap();
    let keys: Vec<i64> = rows
        .iter()
        .map(|e| match e.key {
            Key::I64(x) => x,
            _ => panic!("unexpected key kind"),
        })
        .collect();
    assert_eq!(keys, vec![1, 3, 5]);
}

#[test]
fn repeated_scans_of_one_snapshot_agree() {
    let mut s = SanakirjaStorage::new();
    s.insert_schema(schema(b"t", false, b"")).unwrap();
    s.append_data(&b"t".to_vec(), vec![b"a".to_vec(), b"b".to_vec()]).unwrap();
    let env = s.pristine;
    let txn = env.txn_begin().unwrap();
    let one = txn.scan_data(&b"t".to_vec());
    let two = txn.scan_data(&b"t".to_vec());
    assert_eq!(one.len(), two.len());
    for (a, b) in one.iter().zip(two.iter()) {
        assert_eq!(a.row, b.row);
    }
}

#[test]
fn insert_existing_key_overwrites_in_place() {
    let mut s = SanakirjaStorage::new();
    s.insert_schema(schema(b"t", true, b"")).unwrap();
    s.insert_data(&b"t".to_vec(), vec![entry(1, b"old")]).unwrap();
    s.insert_data(&b"t".to_vec(), vec![entry(1, b"new")]).unwrap();
    let rows = s.scan_data(&b"t".to_vec()).unwrap();
    assert_eq!(rows.len(), 1);
    assert_eq!(rows[0].row, b"new".to_vec());
}

#[test]
fn append_always_grows_by_the_number_supplied() {
    let mut s = SanakirjaStorage::new();
    s.insert_schema(schema(b"t", false, b"")).unwrap();
    s.append_data(&b"t".to_vec(), vec![b"a".to_vec(), b"b".to_vec()]).unwrap();
    assert_eq!(s.scan_data(&b"t".to_vec()).unwrap().len(), 2);
    s.append_data(&b"t".to_vec(), vec![b"a".to_vec()]).unwrap();
    assert_eq!(s.scan_data(&b"t".to_vec()).unwrap().len(), 3);
}

#[test]
fn delete_schema_then_fetch_is_absent_and_idempotent() {
    let mut s = SanakirjaStorage::new();
    s.insert_schema(schema(b"t", false, b"x")).unwrap();
    s.delete_schema(&b"t".to_vec()).unwrap();
    assert!(s.fetch_schema(&b"t".to_vec()).unwrap().is_none());
    s.delete_schema(&b"t".to_vec()).unwrap();
    assert!(s.fetch_schema(&b"t".to_vec()).unwrap().is_none());
}

#[test]
fn duplicate_schema_is_an_error() {
    let mut s = SanakirjaStorage::new();
    s.insert_schema(schema(b"t", false, b"x")).unwrap();
    let again = s.insert_schema(schema(b"t", false, b"y"));
    assert_eq!(again.unwrap_err(), err_into(SanakirjaError::SchemaExists));
    let kept = s.fetch_schema(&b"t".to_vec()).unwrap().unwrap();
    assert_eq!(kept.payload, b"x".to_vec());
}

#[test]
fn corrupted_version_marker_fails_every_open() {
    let mut s = SanakirjaStorage::new();
    s.insert_schema(schema(b"t", false, b"x")).unwrap();
    let mut bytes = s.pristine.save_to_bytes();
    bytes[0] ^= 0xff;
    let reopened = Pristine::open_from_bytes(&bytes);
    assert!(matches!(reopened, Err(SanakirjaError::Version)));
    let again = Pristine::open_from_bytes(&bytes);
    assert!(matches!(again, Err(SanakirjaError::Version)));
    let via_storage = SanakirjaStorage::from_bytes(&bytes);
    assert_eq!(
        via_storage.err().unwrap(),
        Error::StorageMsg(
            "Pristine version mismatch. Cloning over the network can fix this.".to_string()
        )
    );
}

#[test]
fn truncated_header_is_corruption() {
    let bytes = vec![1u8, 0, 0, 0];
    let reopened = Pristine::open_from_bytes(&bytes);
    assert!(matches!(reopened, Err(SanakirjaError::PristineCorrupted)));
}

#[test]
fn version_only_file_lacks_schema_root() {
    let bytes = vec![1u8, 0, 0, 0, 0, 0, 0, 0];
    let reopened = Pristine::open_from_bytes(&bytes);
    assert!(matches!(reopened, Err(SanakirjaError::PristineCorrupted)));
}

#[test]
fn undecodable_state_is_a_serialization_error() {
    let mut bytes = vec![1u8, 0, 0, 0, 0, 0, 0, 0];
    bytes.extend_from_slice(&[9, 9, 9]);
    let reopened = Pristine::open_from_bytes(&bytes);
    assert!(matches!(reopened, Err(SanakirjaError::Serialization)));
}

#[test]
fn read_transaction_on_fresh_file_is_invalid() {
    let env = Pristine::new();
    let r = env.txn_begin();
    assert!(matches!(r, Err(SanakirjaError::PristineCorrupted)));
}

#[test]
fn data_ops_on_missing_table_are_errors() {
    let mut s = SanakirjaStorage::new();
    s.insert_schema(schema(b"other", false, b"")).unwrap();
    let r = s.insert_data(&b"t".to_vec(), vec![entry(1, b"a")]);
    assert_eq!(r.unwrap_err(), err_into(SanakirjaError::TableDoesNotExist));
    let r = s.append_data(&b"t".to_vec(), vec![b"a".to_vec()]);
    assert_eq!(r.unwrap_err(), err_into(SanakirjaError::TableDoesNotExist));
    let r = s.delete_data(&b"t".to_vec(), vec![Key::I64(1)]);
    assert_eq!(r.unwrap_err(), err_into(SanakirjaError::TableDoesNotExist));
}

#[test]
fn primary_key_scenario() {
    let mut s = SanakirjaStorage::new();
    s.insert_schema(schema(b"t", true, b"id")).unwrap();
    s.insert_data(&b"t".to_vec(), vec![entry(1, b"row_a"), entry(2, b"row_b")]).unwrap();

    let rows = s.scan_data(&b"t".to_vec()).unwrap();
    assert_eq!(rows.len(), 2);
    assert!(matches!(rows[0].key, Key::I64(1)));
    assert_eq!(rows[0].row, b"row_a".to_vec());
    assert!(matches!(rows[1].key, Key::I64(2)));
    assert_eq!(rows[1].row, b"row_b".to_vec());

    s.delete_data(&b"t".to_vec(), vec![Key::I64(1)]).unwrap();
    let rows = s.scan_data(&b"t".to_vec()).unwrap();
    assert_eq!(rows.len(), 1);
    assert!(matches!(rows[0].key, Key::I64(2)));
    assert_eq!(rows[0].row, b"row_b".to_vec());
}

#[test]
fn delete_missing_keys_is_skipped() {
    let mut s = SanakirjaStorage::new();
    s.insert_schema(schema(b"t", true, b"")).unwrap();
    s.insert_data(&b"t".to_vec(), vec![entry(1, b"a")]).unwrap();
    s.delete_data(&b"t".to_vec(), vec![Key::I64(9), Key::I64(1)]).unwrap();
    assert_eq!(s.scan_data(&b"t".to_vec()).unwrap().len(), 0);
}

#[test]
fn fetch_all_schemas_in_name_order() {
    let mut s = SanakirjaStorage::new();
    s.insert_schema(schema(b"zebra", false, b"")).unwrap();
    s.insert_schema(schema(b"ant", false, b"")).unwrap();
    s.insert_schema(schema(b"mole", false, b"")).unwrap();
    let all = s.fetch_all_schemas().unwrap();
    let names: Vec<Vec<u8>> = all.iter().map(|sc| sc.table_name.clone()).collect();
    assert_eq!(names, vec![b"ant".to_vec(), b"mole".to_vec(), b"zebra".to_vec()]);
}

#[test]
fn fetch_data_point_lookup() {
    let mut s = SanakirjaStorage::new();
    s.insert_schema(schema(b"t", true, b"")).unwrap();
    s.insert_data(&b"t".to_vec(), vec![entry(4, b"four")]).unwrap();
    assert_eq!(
        s.fetch_data(&b"t".to_vec(), &Key::I64(4)).unwrap(),
        Some(b"four".to_vec())
    );
    assert_eq!(s.fetch_data(&b"t".to_vec(), &Key::I64(5)).unwrap(), None);
}

#[test]
fn mixed_key_kinds_keep_one_order() {
    let mut s = SanakirjaStorage::new();
    s.insert_schema(schema(b"t", true, b"")).unwrap();
    s.insert_data(
        &b"t".to_vec(),
        vec![
            RowEntry { key: Key::Bytes(b"aa".to_vec()), row: b"bytes".to_vec() },
            RowEntry { key: Key::I64(-3), row: b"int".to_vec() },
            RowEntry { key: Key::Uuid(10), row: b"uuid".to_vec() },
        ],
    )
    .unwrap();
    let rows = s.scan_data(&b"t".to_vec()).unwrap();
    assert!(matches!(rows[0].key, Key::I64(-3)));
    assert!(matches!(rows[1].key, Key::Uuid(10)));
    assert!(matches!(rows[2].key, Key::Bytes(_)));
}

#[test]
fn abort_releases_the_writer_latch() {
    let mut env = Pristine::new();
    let txn = env.mut_txn_begin().unwrap();
    txn.abort(&mut env);
    assert!(env.mut_txn_begin().is_ok());
}
