//! The storage contract of the paged backend: the operation set the SQL
//! execution layer invokes. Reads open a snapshot transaction; writes
//! open the single mutable transaction and commit it, or abort with zero
//! observable effect. Every condition is reported as the generic storage
//! message at this boundary.

use vstd::prelude::*;

use crate::error::{err_into, is_storage_msg, sanakirja_error_message, Error, SanakirjaError};
use crate::pristine::{
    appended_find, find_table, key_in, keys_vw, pristine_wf, upserted, uuid_ub, Pristine, VERSION,
};
use crate::types::{
    find_row, names_vw, rows_sorted, rows_vw, Key, KeyV, RowEntry, Schema, TableV,
};

verus! {

/// Whether the environment holds a readable committed state.
pub open spec fn ready(p: Pristine) -> bool {
    p.version_slot == Some(VERSION) && p.store is Some
}

/// The committed state of a ready environment.
pub open spec fn snap(p: Pristine) -> Seq<TableV> {
    p.store->Some_0@
}

/// The state a mutable transaction starts from: the committed state, or
/// an empty index on a fresh file.
pub open spec fn staged_base(p: Pristine) -> Seq<TableV> {
    match p.store {
        Some(st) => st@,
        None => Seq::empty(),
    }
}

/// The paged-engine backend of the storage contract.
#[derive(Debug)]
pub struct SanakirjaStorage {
    pub pristine: Pristine,
}

impl SanakirjaStorage {
    /// A storage over a freshly created store file.
    pub fn new() -> (r: SanakirjaStorage)
        ensures
            pristine_wf(r.pristine),
            !r.pristine.writer_active,
            !ready(r.pristine),
            r.pristine.store is None,
    {
        SanakirjaStorage { pristine: Pristine::new() }
    }

    /// A storage over an existing store file image.
    pub fn from_bytes(bytes: &Vec<u8>) -> (r: Result<SanakirjaStorage, Error>)
        ensures
            match r {
                Ok(s) => pristine_wf(s.pristine) && !s.pristine.writer_active,
                Err(_) => true,
            },
            bytes@.len() >= 8 && crate::l64::le_val(bytes@.subrange(0, 8)) != VERSION ==> (
            r matches Err(e) && is_storage_msg(
                e,
                sanakirja_error_message(SanakirjaError::Version),
            )),
            r matches Ok(s) ==> (s.pristine.store matches Some(st) ==> bytes@
                == crate::l64::u64_le_bytes(VERSION) + crate::codec::enc_state_spec(st@)),
            r matches Ok(s) && s.pristine.store is None ==> bytes@.len() == 0,
    {
        match Pristine::open_from_bytes(bytes) {
            Ok(p) => Ok(SanakirjaStorage { pristine: p }),
            Err(e) => Err(err_into(e)),
        }
    }

    /// Every schema, in table-name order, from a fresh snapshot.
    pub fn fetch_all_schemas(&self) -> (r: Result<Vec<Schema>, Error>)
        requires
            pristine_wf(self.pristine),
        ensures
            ready(self.pristine) ==> (r matches Ok(v) && v@.len() == snap(self.pristine).len() && (
            forall|i: int|
                0 <= i < v@.len() ==> #[trigger] v@[i]@ == snap(self.pristine)[i].schema)),
            !ready(self.pristine) ==> (r matches Err(e) && is_storage_msg(
                e,
                sanakirja_error_message(SanakirjaError::PristineCorrupted),
            )),
    {
        match self.pristine.txn_begin() {
            Err(e) => Err(err_into(e)),
            Ok(txn) => Ok(txn.fetch_all_schemas()),
        }
    }

    /// The schema of table `table_name`, if any, from a fresh snapshot.
    pub fn fetch_schema(&self, table_name: &Vec<u8>) -> (r: Result<Option<Schema>, Error>)
        requires
            pristine_wf(self.pristine),
        ensures
            ready(self.pristine) ==> (r matches Ok(opt) && (match find_table(
                snap(self.pristine),
                table_name@,
            ) {
                Some(t) => opt matches Some(s) && s@ == t.schema,
                None => opt is None,
            })),
            !ready(self.pristine) ==> (r matches Err(e) && is_storage_msg(
                e,
                sanakirja_error_message(SanakirjaError::PristineCorrupted),
            )),
    {
        match self.pristine.txn_begin() {
            Err(e) => Err(err_into(e)),
            Ok(txn) => Ok(txn.fetch_schema(table_name)),
        }
    }

    /// The row under `key` in table `table_name`, if any.
    pub fn fetch_data(&self, table_name: &Vec<u8>, key: &Key) -> (r: Result<Option<Vec<u8>>, Error>)
        requires
            pristine_wf(self.pristine),
        ensures
            ready(self.pristine) ==> (r matches Ok(opt) && (match find_table(
                snap(self.pristine),
                table_name@,
            ) {
                Some(t) => match find_row(t.rows, key@) {
                    Some(row) => opt matches Some(v) && v@ == row,
                    None => opt is None,
                },
                None => opt is None,
            })),
            !ready(self.pristine) ==> (r matches Err(e) && is_storage_msg(
                e,
                sanakirja_error_message(SanakirjaError::PristineCorrupted),
            )),
    {
        match self.pristine.txn_begin() {
            Err(e) => Err(err_into(e)),
            Ok(txn) => Ok(txn.fetch_data(table_name, key)),
        }
    }

    /// Every row of table `table_name` in key order, from one snapshot;
    /// empty if the table is absent.
    pub fn scan_data(&self, table_name: &Vec<u8>) -> (r: Result<Vec<RowEntry>, Error>)
        requires
            pristine_wf(self.pristine),
        ensures
            ready(self.pristine) ==> (r matches Ok(v) && (match find_table(
                snap(self.pristine),
                table_name@,
            ) {
                Some(t) => rows_vw(v@) == t.rows && rows_sorted(rows_vw(v@)),
                None => v@.len() == 0,
            })),
            !ready(self.pristine) ==> (r matches Err(e) && is_storage_msg(
                e,
                sanakirja_error_message(SanakirjaError::PristineCorrupted),
            )),
    {
        match self.pristine.txn_begin() {
            Err(e) => Err(err_into(e)),
            Ok(txn) => Ok(txn.scan_data(table_name)),
        }
    }

    /// Inserts a schema within one committed mutable transaction; a
    /// duplicate table name is an error and leaves no observable effect.
    pub fn insert_schema(&mut self, schema: Schema) -> (r: Result<(), Error>)
        requires
            pristine_wf(old(self).pristine),
        ensures
            pristine_wf(final(self).pristine),
            !old(self).pristine.writer_active ==> !final(self).pristine.writer_active,
            old(self).pristine.writer_active ==> (r matches Err(e) && is_storage_msg(
                e,
                sanakirja_error_message(SanakirjaError::PristineLocked),
            ) && staged_base(final(self).pristine) == staged_base(old(self).pristine)),
            !old(self).pristine.writer_active ==> (match find_table(
                staged_base(old(self).pristine),
                schema@.name,
            ) {
                Some(_) => r matches Err(e) && is_storage_msg(
                    e,
                    sanakirja_error_message(SanakirjaError::SchemaExists),
                ) && staged_base(final(self).pristine) == staged_base(old(self).pristine),
                None => {
                    &&& r is Ok
                    &&& ready(final(self).pristine)
                    &&& snap(final(self).pristine).len() == staged_base(old(self).pristine).len()
                        + 1
                    &&& find_table(snap(final(self).pristine), schema@.name) == Some(
                        TableV { schema: schema@, rows: Seq::empty() },
                    )
                    &&& forall|n: Seq<u8>|
                        n != schema@.name ==> #[trigger] find_table(snap(final(self).pristine), n)
                            == find_table(staged_base(old(self).pristine), n)
                },
            }),
    {
        match self.pristine.mut_txn_begin() {
            Err(e) => Err(err_into(e)),
            Ok(mut txn) => match txn.insert_schema(schema) {
                Err(e) => {
                    txn.abort(&mut self.pristine);
                    Err(err_into(e))
                },
                Ok(()) => {
                    txn.commit(&mut self.pristine);
                    Ok(())
                },
            },
        }
    }

    /// Removes a schema and its data table within one committed mutable
    /// transaction; removing an absent name is not an error.
    pub fn delete_schema(&mut self, table_name: &Vec<u8>) -> (r: Result<(), Error>)
        requires
            pristine_wf(old(self).pristine),
        ensures
            pristine_wf(final(self).pristine),
            !old(self).pristine.writer_active ==> !final(self).pristine.writer_active,
            old(self).pristine.writer_active ==> (r matches Err(e) && is_storage_msg(
                e,
                sanakirja_error_message(SanakirjaError::PristineLocked),
            ) && staged_base(final(self).pristine) == staged_base(old(self).pristine)),
            !old(self).pristine.writer_active ==> {
                &&& r is Ok
                &&& ready(final(self).pristine)
                &&& find_table(snap(final(self).pristine), table_name@) == None::<TableV>
                &&& forall|n: Seq<u8>|
                    n != table_name@ ==> #[trigger] find_table(snap(final(self).pristine), n)
                        == find_table(staged_base(old(self).pristine), n)
                &&& snap(final(self).pristine).len() == staged_base(old(self).pristine).len() - (
                if find_table(staged_base(old(self).pristine), table_name@) is Some {
                    1int
                } else {
                    0int
                })
            },
    {
        match self.pristine.mut_txn_begin() {
            Err(e) => Err(err_into(e)),
            Ok(mut txn) => {
                txn.delete_schema(table_name);
                txn.commit(&mut self.pristine);
                Ok(())
            },
        }
    }

    /// Upserts keyed rows within one committed mutable transaction; an
    /// existing key is overwritten in place, so the row count does not
    /// grow for it.
    pub fn insert_data(&mut self, table_name: &Vec<u8>, new_rows: Vec<RowEntry>) -> (r: Result<
        (),
        Error,
    >)
        requires
            pristine_wf(old(self).pristine),
        ensures
            pristine_wf(final(self).pristine),
            !old(self).pristine.writer_active ==> !final(self).pristine.writer_active,
            old(self).pristine.writer_active ==> (r matches Err(e) && is_storage_msg(
                e,
                sanakirja_error_message(SanakirjaError::PristineLocked),
            ) && staged_base(final(self).pristine) == staged_base(old(self).pristine)),
            !old(self).pristine.writer_active ==> (match find_table(
                staged_base(old(self).pristine),
                table_name@,
            ) {
                None => r matches Err(e) && is_storage_msg(
                    e,
                    sanakirja_error_message(SanakirjaError::TableDoesNotExist),
                ) && staged_base(final(self).pristine) == staged_base(old(self).pristine),
                Some(t) => {
                    &&& r is Ok
                    &&& ready(final(self).pristine)
                    &&& find_table(snap(final(self).pristine), table_name@) matches Some(t2)
                    &&& (find_table(snap(final(self).pristine), table_name@) matches Some(t2)
                        ==> t2.schema == t.schema && t2.rows.len() <= t.rows.len()
                        + new_rows@.len() && (forall|k: KeyV|
                        #[trigger] find_row(t2.rows, k) == upserted(
                            t.rows,
                            rows_vw(new_rows@),
                            k,
                        )))
                    &&& forall|n: Seq<u8>|
                        n != table_name@ ==> #[trigger] find_table(snap(final(self).pristine), n)
                            == find_table(staged_base(old(self).pristine), n)
                },
            }),
    {
        match self.pristine.mut_txn_begin() {
            Err(e) => Err(err_into(e)),
            Ok(mut txn) => match txn.insert_data(table_name, new_rows) {
                Err(e) => {
                    txn.abort(&mut self.pristine);
                    Err(err_into(e))
                },
                Ok(()) => {
                    txn.commit(&mut self.pristine);
                    Ok(())
                },
            },
        }
    }

    /// Removes the given keys within one committed mutable transaction;
    /// missing keys are silently skipped.
    pub fn delete_data(&mut self, table_name: &Vec<u8>, keys: Vec<Key>) -> (r: Result<(), Error>)
        requires
            pristine_wf(old(self).pristine),
        ensures
            pristine_wf(final(self).pristine),
            !old(self).pristine.writer_active ==> !final(self).pristine.writer_active,
            old(self).pristine.writer_active ==> (r matches Err(e) && is_storage_msg(
                e,
                sanakirja_error_message(SanakirjaError::PristineLocked),
            ) && staged_base(final(self).pristine) == staged_base(old(self).pristine)),
            !old(self).pristine.writer_active ==> (match find_table(
                staged_base(old(self).pristine),
                table_name@,
            ) {
                None => r matches Err(e) && is_storage_msg(
                    e,
                    sanakirja_error_message(SanakirjaError::TableDoesNotExist),
                ) && staged_base(final(self).pristine) == staged_base(old(self).pristine),
                Some(t) => {
                    &&& r is Ok
                    &&& ready(final(self).pristine)
                    &&& find_table(snap(final(self).pristine), table_name@) matches Some(t2)
                    &&& (find_table(snap(final(self).pristine), table_name@) matches Some(t2)
                        ==> t2.schema == t.schema && t2.rows.len() <= t.rows.len() && (forall|
                    k: KeyV|
                        #[trigger] find_row(t2.rows, k) == if key_in(keys_vw(keys@), k) {
                            None::<Seq<u8>>
                        } else {
                            find_row(t.rows, k)
                        }))
                    &&& forall|n: Seq<u8>|
                        n != table_name@ ==> #[trigger] find_table(snap(final(self).pristine), n)
                            == find_table(staged_base(old(self).pristine), n)
                },
            }),
    {
        match self.pristine.mut_txn_begin() {
            Err(e) => Err(err_into(e)),
            Ok(mut txn) => match txn.delete_data(table_name, keys) {
                Err(e) => {
                    txn.abort(&mut self.pristine);
                    Err(err_into(e))
                },
                Ok(()) => {
                    txn.commit(&mut self.pristine);
                    Ok(())
                },
            },
        }
    }

    /// Appends rows under fresh surrogate keys within one committed
    /// mutable transaction: the row count always grows by the number of
    /// rows supplied.
    pub fn append_data(&mut self, table_name: &Vec<u8>, new_rows: Vec<Vec<u8>>) -> (r: Result<
        (),
        Error,
    >)
        requires
            pristine_wf(old(self).pristine),
        ensures
            pristine_wf(final(self).pristine),
            !old(self).pristine.writer_active ==> !final(self).pristine.writer_active,
            old(self).pristine.writer_active ==> (r matches Err(e) && is_storage_msg(
                e,
                sanakirja_error_message(SanakirjaError::PristineLocked),
            ) && staged_base(final(self).pristine) == staged_base(old(self).pristine)),
            !old(self).pristine.writer_active ==> (match find_table(
                staged_base(old(self).pristine),
                table_name@,
            ) {
                None => r matches Err(e) && is_storage_msg(
                    e,
                    sanakirja_error_message(SanakirjaError::TableDoesNotExist),
                ) && staged_base(final(self).pristine) == staged_base(old(self).pristine),
                Some(t) => {
                    if uuid_ub(t.rows) + new_rows@.len() > 0x100000000000000000000000000000000 {
                        r matches Err(e) && is_storage_msg(
                            e,
                            sanakirja_error_message(SanakirjaError::KeyOverflow),
                        ) && staged_base(final(self).pristine) == staged_base(old(self).pristine)
                    } else {
                        &&& r is Ok
                        &&& ready(final(self).pristine)
                        &&& find_table(snap(final(self).pristine), table_name@) matches Some(t2)
                        &&& (find_table(snap(final(self).pristine), table_name@) matches Some(t2)
                            ==> t2.schema == t.schema && t2.rows.len() == t.rows.len()
                            + new_rows@.len() && (forall|k: KeyV|
                            #[trigger] find_row(t2.rows, k) == appended_find(
                                t.rows,
                                names_vw(new_rows@),
                                uuid_ub(t.rows),
                                new_rows@.len() as int,
                                k,
                            )))
                        &&& forall|n: Seq<u8>|
                            n != table_name@ ==> #[trigger] find_table(
                                snap(final(self).pristine),
                                n,
                            ) == find_table(staged_base(old(self).pristine), n)
                    }
                },
            }),
    {
        match self.pristine.mut_txn_begin() {
            Err(e) => Err(err_into(e)),
            Ok(mut txn) => match txn.append_data(table_name, new_rows) {
                Err(e) => {
                    txn.abort(&mut self.pristine);
                    Err(err_into(e))
                },
                Ok(()) => {
                    txn.commit(&mut self.pristine);
                    Ok(())
                },
            },
        }
    }
}


/// The read half of the storage contract: the operation set every
/// backend serves to the execution layer. `snapshot` is the backend's
/// readable state; a backend that cannot read (a fresh, uninitialized
/// paged store) reports an error instead.
pub trait Store {
    /// The backend's own well-formedness invariant.
    spec fn inv(&self) -> bool;

    /// Whether a committed state is readable at all.
    spec fn readable(&self) -> bool;

    /// The readable committed state.
    spec fn snapshot(&self) -> Seq<TableV>;

    /// Every schema, in table-name order.
    fn fetch_all_schemas(&self) -> (r: Result<Vec<Schema>, Error>)
        requires
            self.inv(),
        ensures
            self.readable() ==> (r matches Ok(v) && v@.len() == self.snapshot().len() && (forall|
            i: int|
                0 <= i < v@.len() ==> #[trigger] v@[i]@ == self.snapshot()[i].schema)),
            !self.readable() ==> r is Err,
    ;

    /// The schema stored under `table_name`, if any.
    fn fetch_schema(&self, table_name: &Vec<u8>) -> (r: Result<Option<Schema>, Error>)
        requires
            self.inv(),
        ensures
            self.readable() ==> (r matches Ok(opt) && (match find_table(
                self.snapshot(),
                table_name@,
            ) {
                Some(t) => opt matches Some(s) && s@ == t.schema,
                None => opt is None,
            })),
            !self.readable() ==> r is Err,
    ;

    /// The row stored under `key` in table `table_name`, if any.
    fn fetch_data(&self, table_name: &Vec<u8>, key: &Key) -> (r: Result<Option<Vec<u8>>, Error>)
        requires
            self.inv(),
        ensures
            self.readable() ==> (r matches Ok(opt) && (match find_table(
                self.snapshot(),
                table_name@,
            ) {
                Some(t) => match find_row(t.rows, key@) {
                    Some(row) => opt matches Some(v) && v@ == row,
                    None => opt is None,
                },
                None => opt is None,
            })),
            !self.readable() ==> r is Err,
    ;

    /// Every row of table `table_name`, in key order; empty if absent.
    fn scan_data(&self, table_name: &Vec<u8>) -> (r: Result<Vec<RowEntry>, Error>)
        requires
            self.inv(),
        ensures
            self.readable() ==> (r matches Ok(v) && (match find_table(
                self.snapshot(),
                table_name@,
            ) {
                Some(t) => rows_vw(v@) == t.rows && rows_sorted(rows_vw(v@)),
                None => v@.len() == 0,
            })),
            !self.readable() ==> r is Err,
    ;
}

impl Store for SanakirjaStorage {
    open spec fn inv(&self) -> bool {
        pristine_wf(self.pristine)
    }

    open spec fn readable(&self) -> bool {
        ready(self.pristine)
    }

    open spec fn snapshot(&self) -> Seq<TableV> {
        snap(self.pristine)
    }

    fn fetch_all_schemas(&self) -> (r: Result<Vec<Schema>, Error>) {
        SanakirjaStorage::fetch_all_schemas(self)
    }

    fn fetch_schema(&self, table_name: &Vec<u8>) -> (r: Result<Option<Schema>, Error>) {
        SanakirjaStorage::fetch_schema(self, table_name)
    }

    fn fetch_data(&self, table_name: &Vec<u8>, key: &Key) -> (r: Result<Option<Vec<u8>>, Error>) {
        SanakirjaStorage::fetch_data(self, table_name, key)
    }

    fn scan_data(&self, table_name: &Vec<u8>) -> (r: Result<Vec<RowEntry>, Error>) {
        SanakirjaStorage::scan_data(self, table_name)
    }
}

impl Store for crate::workers_kv::WorkersKVStorage {
    open spec fn inv(&self) -> bool {
        crate::pristine::state_wf(self.state@)
    }

    open spec fn readable(&self) -> bool {
        true
    }

    open spec fn snapshot(&self) -> Seq<TableV> {
        self.state@
    }

    fn fetch_all_schemas(&self) -> (r: Result<Vec<Schema>, Error>) {
        crate::workers_kv::WorkersKVStorage::fetch_all_schemas(self)
    }

    fn fetch_schema(&self, table_name: &Vec<u8>) -> (r: Result<Option<Schema>, Error>) {
        crate::workers_kv::WorkersKVStorage::fetch_schema(self, table_name)
    }

    fn fetch_data(&self, table_name: &Vec<u8>, key: &Key) -> (r: Result<Option<Vec<u8>>, Error>) {
        crate::workers_kv::WorkersKVStorage::fetch_data(self, table_name, key)
    }

    fn scan_data(&self, table_name: &Vec<u8>) -> (r: Result<Vec<RowEntry>, Error>) {
        crate::workers_kv::WorkersKVStorage::scan_data(self, table_name)
    }
}

/// The write half of the storage contract. `write_base` is the state a
/// write starts from; a backend whose single writer is already busy
/// refuses with an error and leaves the base untouched.
pub trait StoreMut: Store {
    /// Whether a write may proceed now.
    spec fn may_write(&self) -> bool;

    /// The state the next write starts from.
    spec fn write_base(&self) -> Seq<TableV>;

    /// Adds a schema; a duplicate table name is an error, never a
    /// silent overwrite.
    fn insert_schema(&mut self, schema: Schema) -> (r: Result<(), Error>)
        requires
            old(self).inv(),
        ensures
            final(self).inv(),
            !old(self).may_write() ==> r is Err && final(self).write_base() == old(
                self,
            ).write_base(),
            old(self).may_write() ==> (match find_table(old(self).write_base(), schema@.name) {
                Some(_) => r is Err && final(self).write_base() == old(self).write_base(),
                None => {
                    &&& r is Ok
                    &&& final(self).write_base().len() == old(self).write_base().len() + 1
                    &&& find_table(final(self).write_base(), schema@.name) == Some(
                        TableV { schema: schema@, rows: Seq::empty() },
                    )
                    &&& forall|n: Seq<u8>|
                        n != schema@.name ==> #[trigger] find_table(final(self).write_base(), n)
                            == find_table(old(self).write_base(), n)
                },
            }),
    ;

    /// Removes a schema and its data table; removing an absent name is
    /// not an error.
    fn delete_schema(&mut self, table_name: &Vec<u8>) -> (r: Result<(), Error>)
        requires
            old(self).inv(),
        ensures
            final(self).inv(),
            !old(self).may_write() ==> r is Err && final(self).write_base() == old(
                self,
            ).write_base(),
            old(self).may_write() ==> {
                &&& r is Ok
                &&& find_table(final(self).write_base(), table_name@) == None::<TableV>
                &&& forall|n: Seq<u8>|
                    n != table_name@ ==> #[trigger] find_table(final(self).write_base(), n)
                        == find_table(old(self).write_base(), n)
                &&& final(self).write_base().len() == old(self).write_base().len() - (
                if find_table(old(self).write_base(), table_name@) is Some {
                    1int
                } else {
                    0int
                })
            },
    ;

    /// Appends rows under fresh surrogate keys: appending nothing always
    /// succeeds, and on success the table gains exactly the supplied
    /// rows, the i-th under the i-th of some fresh, pairwise-distinct
    /// surrogate keys, every existing row and every other table
    /// untouched.
    fn append_data(&mut self, table_name: &Vec<u8>, new_rows: Vec<Vec<u8>>) -> (r: Result<
        (),
        Error,
    >)
        requires
            old(self).inv(),
        ensures
            final(self).inv(),
            r is Err ==> final(self).write_base() == old(self).write_base(),
            old(self).may_write() && find_table(old(self).write_base(), table_name@) is None
                ==> r is Err,
            old(self).may_write() && find_table(old(self).write_base(), table_name@) is Some
                && new_rows@.len() == 0 ==> r is Ok,
            r is Ok ==> crate::pristine::append_effect(
                old(self).write_base(),
                final(self).write_base(),
                table_name@,
                names_vw(new_rows@),
            ),
    ;

    /// Upserts keyed rows: an existing key is overwritten in place, the
    /// last write to one key wins.
    fn insert_data(&mut self, table_name: &Vec<u8>, new_rows: Vec<RowEntry>) -> (r: Result<
        (),
        Error,
    >)
        requires
            old(self).inv(),
        ensures
            final(self).inv(),
            !old(self).may_write() ==> r is Err && final(self).write_base() == old(
                self,
            ).write_base(),
            old(self).may_write() ==> (match find_table(old(self).write_base(), table_name@) {
                None => r is Err && final(self).write_base() == old(self).write_base(),
                Some(t) => {
                    &&& r is Ok
                    &&& find_table(final(self).write_base(), table_name@) matches Some(t2)
                    &&& (find_table(final(self).write_base(), table_name@) matches Some(t2)
                        ==> t2.schema == t.schema && (forall|k: KeyV|
                        #[trigger] find_row(t2.rows, k) == upserted(
                            t.rows,
                            rows_vw(new_rows@),
                            k,
                        )))
                    &&& forall|n: Seq<u8>|
                        n != table_name@ ==> #[trigger] find_table(final(self).write_base(), n)
                            == find_table(old(self).write_base(), n)
                },
            }),
    ;

    /// Removes the given keys; missing keys are silently skipped.
    fn delete_data(&mut self, table_name: &Vec<u8>, keys: Vec<Key>) -> (r: Result<(), Error>)
        requires
            old(self).inv(),
        ensures
            final(self).inv(),
            !old(self).may_write() ==> r is Err && final(self).write_base() == old(
                self,
            ).write_base(),
            old(self).may_write() ==> (match find_table(old(self).write_base(), table_name@) {
                None => r is Err && final(self).write_base() == old(self).write_base(),
                Some(t) => {
                    &&& r is Ok
                    &&& find_table(final(self).write_base(), table_name@) matches Some(t2)
                    &&& (find_table(final(self).write_base(), table_name@) matches Some(t2)
                        ==> t2.schema == t.schema && (forall|k: KeyV|
                        #[trigger] find_row(t2.rows, k) == if key_in(keys_vw(keys@), k) {
                            None::<Seq<u8>>
                        } else {
                            find_row(t.rows, k)
                        }))
                    &&& forall|n: Seq<u8>|
                        n != table_name@ ==> #[trigger] find_table(final(self).write_base(), n)
                            == find_table(old(self).write_base(), n)
                },
            }),
    ;
}

impl StoreMut for SanakirjaStorage {
    open spec fn may_write(&self) -> bool {
        !self.pristine.writer_active
    }

    open spec fn write_base(&self) -> Seq<TableV> {
        staged_base(self.pristine)
    }

    fn insert_schema(&mut self, schema: Schema) -> (r: Result<(), Error>) {
        SanakirjaStorage::insert_schema(self, schema)
    }

    fn delete_schema(&mut self, table_name: &Vec<u8>) -> (r: Result<(), Error>) {
        SanakirjaStorage::delete_schema(self, table_name)
    }

    fn append_data(&mut self, table_name: &Vec<u8>, new_rows: Vec<Vec<u8>>) -> (r: Result<
        (),
        Error,
    >) {
        let ghost base0 = staged_base(old(self).pristine);
        proof {
            // The surrogate bound of a valid table never exceeds the key
            // space, so appending nothing cannot overflow it.
            match find_table(base0, table_name@) {
                Some(t) => {
                    crate::pristine::lemma_find_table_witness(base0, table_name@);
                    let w = choose|w: int|
                        0 <= w < base0.len() && #[trigger] base0[w].schema.name == table_name@
                            && base0[w] == t;
                    crate::pristine::lemma_uuid_ub_bound(t.rows);
                },
                None => {},
            }
        }
        let r = SanakirjaStorage::append_data(self, table_name, new_rows);
        proof {
            if r is Ok {
                let t = find_table(base0, table_name@)->Some_0;
                let t2 = find_table(staged_base(self.pristine), table_name@)->Some_0;
                let ub = uuid_ub(t.rows);
                let n = new_rows@.len() as int;
                let data = names_vw(new_rows@);
                let ks = Seq::new(n as nat, |i: int| KeyV::Uuid(ub + i));
                assert forall|i: int| 0 <= i < ks.len() implies ((#[trigger] ks[i]) is Uuid
                    && find_row(t.rows, ks[i]) is None && find_row(t2.rows, ks[i]) == Some(
                    data[i],
                )) by {
                    crate::pristine::lemma_uuid_fresh(t.rows, ub + i);
                }
                assert forall|k: KeyV| !ks.contains(k) implies #[trigger] find_row(t2.rows, k)
                    == find_row(t.rows, k) by {
                    match k {
                        KeyV::Uuid(x) => {
                            if ub <= x < ub + n {
                                assert(ks[x - ub] == k);
                                assert(ks.contains(k));
                            }
                        },
                        _ => {},
                    }
                }
                assert(crate::pristine::appended_with(t.rows, t2.rows, data, ks));
            }
        }
        r
    }

    fn insert_data(&mut self, table_name: &Vec<u8>, new_rows: Vec<RowEntry>) -> (r: Result<
        (),
        Error,
    >) {
        SanakirjaStorage::insert_data(self, table_name, new_rows)
    }

    fn delete_data(&mut self, table_name: &Vec<u8>, keys: Vec<Key>) -> (r: Result<(), Error>) {
        SanakirjaStorage::delete_data(self, table_name, keys)
    }
}

impl StoreMut for crate::workers_kv::WorkersKVStorage {
    open spec fn may_write(&self) -> bool {
        true
    }

    open spec fn write_base(&self) -> Seq<TableV> {
        self.state@
    }

    fn insert_schema(&mut self, schema: Schema) -> (r: Result<(), Error>) {
        crate::workers_kv::WorkersKVStorage::insert_schema(self, schema)
    }

    fn delete_schema(&mut self, table_name: &Vec<u8>) -> (r: Result<(), Error>) {
        crate::workers_kv::WorkersKVStorage::delete_schema(self, table_name)
    }

    fn append_data(&mut self, table_name: &Vec<u8>, new_rows: Vec<Vec<u8>>) -> (r: Result<
        (),
        Error,
    >) {
        crate::workers_kv::WorkersKVStorage::append_data(self, table_name, new_rows)
    }

    fn insert_data(&mut self, table_name: &Vec<u8>, new_rows: Vec<RowEntry>) -> (r: Result<
        (),
        Error,
    >) {
        crate::workers_kv::WorkersKVStorage::insert_data(self, table_name, new_rows)
    }

    fn delete_data(&mut self, table_name: &Vec<u8>, keys: Vec<Key>) -> (r: Result<(), Error>) {
        crate::workers_kv::WorkersKVStorage::delete_data(self, table_name, keys)
    }
}
} // verus!
