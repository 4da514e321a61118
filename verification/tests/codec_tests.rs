//! Tests of the little-endian cells, the record codec, the error
//! taxonomy, and the key/value adapters.

use pristine_storage::codec::{dec_bytes, dec_key, enc_bytes, enc_key};
use pristine_storage::error::{
    err_into, Error, OptionExt, ResultExt, SanakirjaError, WorkersStorageError,
};
use pristine_storage::l64::{push_u64_le, read_u64_le, L64};
use pristine_storage::types::{bytes_eq, bytes_lt, key_eq_exec, key_lt_exec, Key};
use pristine_storage::store::{SanakirjaStorage, Store, StoreMut};
use pristine_storage::workers_kv::{WorkersKVStorage, WorkersStorage};
use pristine_storage::types::{RowEntry, Schema};

#[test]
fn little_endian_cell_layout() {
    let mut out: Vec<u8> = Vec::new();
    push_u64_le(&mut out, 0x0102030405060708);
    assert_eq!(out, vec![0x08, 0x07, 0x06, 0x05, 0x04, 0x03, 0x02, 0x01]);
    assert_eq!(read_u64_le(&out, 0), 0x0102030405060708);
}

#[test]
fn l64_slice_round_trip() {
    let v = L64(0xdeadbeef00c0ffee);
    let mut buf: Vec<u8> = Vec::new();
    v.to_slice_le(&mut buf);
    assert_eq!(buf.len(), 8);
    let back = L64::from_slice_le(&buf);
    assert_eq!(back.as_u64(), 0xdeadbeef00c0ffee);
}

#[test]
fn l64_conversions() {
    let v: L64 = L64::from(42u64);
    assert_eq!(v.as_u64(), 42);
    assert_eq!(v.as_usize(), 42);
    let u: u64 = u64::from(v);
    assert_eq!(u, 42);
}

#[test]
fn length_prefixed_bytes_round_trip() {
    let mut out: Vec<u8> = Vec::new();
    enc_bytes(&mut out, &b"hello".to_vec());
    assert_eq!(out.len(), 13);
    let (v, p) = dec_bytes(&out, 0).unwrap();
    assert_eq!(v, b"hello".to_vec());
    assert_eq!(p, 13);
}

#[test]
fn key_codec_round_trips_every_kind() {
    for key in [
        Key::I64(-5),
        Key::I64(i64::MAX),
        Key::Uuid(0x0123456789abcdef0123456789abcdefu128),
        Key::Bytes(b"pk-bytes".to_vec()),
    ] {
        let mut out: Vec<u8> = Vec::new();
        enc_key(&mut out, &key);
        let (back, p) = dec_key(&out, 0).unwrap();
        assert_eq!(p, out.len());
        assert!(key_eq_exec(&back, &key));
    }
}

#[test]
fn byte_string_order_is_lexicographic() {
    assert!(bytes_lt(&b"a".to_vec(), &b"b".to_vec()));
    assert!(bytes_lt(&b"a".to_vec(), &b"ab".to_vec()));
    assert!(!bytes_lt(&b"b".to_vec(), &b"ab".to_vec()));
    assert!(!bytes_lt(&b"a".to_vec(), &b"a".to_vec()));
    assert!(bytes_eq(&b"same".to_vec(), &b"same".to_vec()));
    assert!(!bytes_eq(&b"same".to_vec(), &b"other".to_vec()));
}

#[test]
fn key_order_ranks_kinds_then_values() {
    assert!(key_lt_exec(&Key::I64(9), &Key::Uuid(0)));
    assert!(key_lt_exec(&Key::Uuid(9), &Key::Bytes(vec![])));
    assert!(key_lt_exec(&Key::I64(-1), &Key::I64(0)));
    assert!(!key_lt_exec(&Key::Bytes(vec![]), &Key::I64(0)));
}

#[test]
fn error_messages_at_the_contract_boundary() {
    assert_eq!(
        err_into(SanakirjaError::PristineLocked),
        Error::StorageMsg("Pristine locked".to_string())
    );
    assert_eq!(
        err_into(SanakirjaError::PristineCorrupted),
        Error::StorageMsg("Pristine corrupted".to_string())
    );
    assert_eq!(
        Error::from(SanakirjaError::Serialization),
        Error::StorageMsg("Pristine record deserialization failed".to_string())
    );
}

#[test]
fn result_and_option_storage_err_mapping() {
    let ok: Result<u8, WorkersStorageError> = Ok(3);
    assert_eq!(ok.map_storage_err(), Ok(3));
    let err: Result<u8, WorkersStorageError> = Err(WorkersStorageError::KeyNotFound);
    assert_eq!(
        err.map_storage_err(),
        Err(Error::StorageMsg("key not found".to_string()))
    );
    let absent: Option<u8> = None;
    assert_eq!(
        absent.map_storage_err(WorkersStorageError::TableDoesNotExist),
        Err(Error::StorageMsg("table does not exist".to_string()))
    );
    let present: Option<u8> = Some(9);
    assert_eq!(present.map_storage_err(WorkersStorageError::BucketNotFound), Ok(9));
    let column = WorkersStorageError::ColumnDoesNotExist("age".to_string());
    assert_eq!(column.message(), "column does not exist: age".to_string());
}

#[test]
fn kv_adapter_serves_the_same_contract() {
    let mut s = WorkersKVStorage::new();
    s.insert_schema(Schema {
        table_name: b"t".to_vec(),
        has_primary_key: true,
        payload: b"id".to_vec(),
    })
    .unwrap();
    s.insert_data(
        &b"t".to_vec(),
        vec![
            RowEntry { key: Key::I64(2), row: b"b".to_vec() },
            RowEntry { key: Key::I64(1), row: b"a".to_vec() },
        ],
    )
    .unwrap();
    let rows = s.scan_data(&b"t".to_vec()).unwrap();
    assert_eq!(rows.len(), 2);
    assert!(matches!(rows[0].key, Key::I64(1)));
    s.delete_data(&b"t".to_vec(), vec![Key::I64(1)]).unwrap();
    assert_eq!(s.scan_data(&b"t".to_vec()).unwrap().len(), 1);
    s.delete_schema(&b"t".to_vec()).unwrap();
    assert!(s.fetch_schema(&b"t".to_vec()).unwrap().is_none());
}

#[test]
fn kv_adapter_append_uses_fresh_surrogate_keys() {
    let mut s = WorkersKVStorage::new();
    s.insert_schema(Schema {
        table_name: b"log".to_vec(),
        has_primary_key: false,
        payload: vec![],
    })
    .unwrap();
    s.append_data(&b"log".to_vec(), vec![b"one".to_vec(), b"two".to_vec()]).unwrap();
    s.append_data(&b"log".to_vec(), vec![b"three".to_vec()]).unwrap();
    let rows = s.scan_data(&b"log".to_vec()).unwrap();
    assert_eq!(rows.len(), 3);
    for e in rows.iter() {
        assert!(matches!(e.key, Key::Uuid(_)));
    }
}

#[test]
fn kv_adapter_blob_round_trip() {
    let mut s = WorkersKVStorage::new();
    s.insert_schema(Schema {
        table_name: b"t".to_vec(),
        has_primary_key: false,
        payload: b"p".to_vec(),
    })
    .unwrap();
    let blob = s.get();
    let s2 = WorkersKVStorage::set(&blob).unwrap();
    let sch = s2.fetch_schema(&b"t".to_vec()).unwrap().unwrap();
    assert_eq!(sch.payload, b"p".to_vec());
}

#[test]
fn workers_storage_bucket_fetch() {
    let mut w = WorkersStorage::new().unwrap();
    w.bucket
        .insert_schema(Schema {
            table_name: b"t".to_vec(),
            has_primary_key: false,
            payload: b"cols".to_vec(),
        })
        .unwrap();
    let sch = w.fetch_schema(&b"t".to_vec()).unwrap().unwrap();
    assert_eq!(sch.payload, b"cols".to_vec());
    assert!(w.fetch_schema(&b"u".to_vec()).unwrap().is_none());
}

fn exercise_contract<S: Store + StoreMut>(s: &mut S) -> usize {
    s.insert_schema(Schema {
        table_name: b"shared".to_vec(),
        has_primary_key: true,
        payload: vec![],
    })
    .unwrap();
    s.insert_data(
        &b"shared".to_vec(),
        vec![RowEntry { key: Key::I64(1), row: b"x".to_vec() }],
    )
    .unwrap();
    s.scan_data(&b"shared".to_vec()).unwrap().len()
}

#[test]
fn both_backends_serve_one_contract() {
    let mut paged = SanakirjaStorage::new();
    let mut kv = WorkersKVStorage::new();
    assert_eq!(exercise_contract(&mut paged), 1);
    assert_eq!(exercise_contract(&mut kv), 1);
}

#[test]
fn kv_adapter_appending_nothing_succeeds() {
    let mut s = WorkersKVStorage::new();
    s.insert_schema(Schema {
        table_name: b"t".to_vec(),
        has_primary_key: false,
        payload: vec![],
    })
    .unwrap();
    s.append_data(&b"t".to_vec(), vec![]).unwrap();
    assert_eq!(s.scan_data(&b"t".to_vec()).unwrap().len(), 0);
}

#[test]
fn kv_adapter_append_payloads_are_the_supplied_rows() {
    let mut s = WorkersKVStorage::new();
    s.insert_schema(Schema {
        table_name: b"t".to_vec(),
        has_primary_key: false,
        payload: vec![],
    })
    .unwrap();
    s.append_data(&b"t".to_vec(), vec![b"alpha".to_vec(), b"beta".to_vec()]).unwrap();
    let mut payloads: Vec<Vec<u8>> = s
        .scan_data(&b"t".to_vec())
        .unwrap()
        .into_iter()
        .map(|e| e.row)
        .collect();
    payloads.sort();
    assert_eq!(payloads, vec![b"alpha".to_vec(), b"beta".to_vec()]);
}

#[test]
fn kv_set_rejects_bytes_that_encode_no_store() {
    let mut s = WorkersKVStorage::new();
    s.insert_schema(Schema {
        table_name: b"t".to_vec(),
        has_primary_key: false,
        payload: vec![],
    })
    .unwrap();
    let mut blob = s.get();
    blob.push(0u8);
    assert!(WorkersKVStorage::set(&blob).is_err());
    let junk = vec![1u8, 0, 0, 0, 0, 0, 0, 0, 7, 7];
    assert!(WorkersKVStorage::set(&junk).is_err());
}
