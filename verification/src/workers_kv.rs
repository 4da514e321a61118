//! The key/value-backed adapter for constrained runtimes: the same
//! storage contract served from a flat serialized-blob store. Surrogate
//! keys for appended rows come from freshly generated random
//! identifiers, falling back to the deterministic bound when a generated
//! key is already taken.

use vstd::prelude::*;

use crate::codec::{enc_state, enc_state_spec};
use crate::error::{
    err_into, is_storage_msg, sanakirja_error_message, Error, ResultExt, SanakirjaError,
};
use crate::l64::{push_u64_le, u64_le_bytes};
use crate::pristine::{find_table, state_wf, Pristine, StoreState, VERSION};
use crate::types::{find_row, rows_sorted, rows_vw, Key, KeyV, RowEntry, Schema, TableV};

verus! {

/// Relies on uuid::Uuid::new_v4 and uuid::Uuid::as_u128: a freshly
/// generated random version-4 identifier as its 128-bit value. Nothing
/// can be promised of a random value, so nothing is.
#[verifier::external_body]
fn new_v4_u128() -> u128 {
    uuid::Uuid::new_v4().as_u128()
}

/// The key/value-backed adapter: the whole store lives in one decoded
/// blob image.
#[derive(Debug)]
pub struct WorkersKVStorage {
    pub state: StoreState,
}

impl WorkersKVStorage {
    /// An adapter over an empty store.
    pub fn new() -> (r: WorkersKVStorage)
        ensures
            r.state@ =~= Seq::<TableV>::empty(),
            state_wf(r.state@),
    {
        WorkersKVStorage { state: StoreState::new() }
    }

    /// The serialized blob that the adapter keeps under its storage key:
    /// the same image layout as the paged backend's file.
    pub fn get(&self) -> (r: Vec<u8>)
        ensures
            r@ == u64_le_bytes(VERSION) + enc_state_spec(self.state@),
    {
        let mut out: Vec<u8> = Vec::new();
        push_u64_le(&mut out, VERSION);
        enc_state(&mut out, &self.state.tables);
        out
    }

    /// Rebuilds the adapter from a serialized blob; reading back a blob
    /// produced by `get` yields the same store.
    pub fn set(blob: &Vec<u8>) -> (r: Result<WorkersKVStorage, Error>)
        ensures
            r matches Ok(s) ==> state_wf(s.state@),
            r matches Ok(s) ==> (blob@.len() == 0 && s.state@ =~= Seq::<TableV>::empty()) || blob@
                == u64_le_bytes(VERSION) + enc_state_spec(s.state@),
            forall|ts: Seq<TableV>|
                state_wf(ts) && blob@ == u64_le_bytes(VERSION) + #[trigger] enc_state_spec(ts)
                    ==> (r matches Ok(s) && s.state@ == ts),
    {
        match Pristine::open_from_bytes(blob) {
            Err(e) => Err(err_into(e)),
            Ok(p) => match p.store {
                None => Ok(WorkersKVStorage::new()),
                Some(st) => Ok(WorkersKVStorage { state: st }),
            },
        }
    }

    /// Removes the adapter's stored blob: every schema and every table
    /// is gone.
    pub fn delete(&mut self)
        ensures
            final(self).state@ =~= Seq::<TableV>::empty(),
            state_wf(final(self).state@),
    {
        self.state = StoreState::new();
    }

    /// Every schema, in table-name order.
    pub fn fetch_all_schemas(&self) -> (r: Result<Vec<Schema>, Error>)
        requires
            state_wf(self.state@),
        ensures
            r matches Ok(v) && v@.len() == self.state@.len() && (forall|i: int|
                0 <= i < v@.len() ==> #[trigger] v@[i]@ == self.state@[i].schema),
    {
        Ok(self.state.fetch_all_schemas())
    }

    /// The schema of table `table_name`, if any.
    pub fn fetch_schema(&self, table_name: &Vec<u8>) -> (r: Result<Option<Schema>, Error>)
        requires
            state_wf(self.state@),
        ensures
            r matches Ok(opt) && (match find_table(self.state@, table_name@) {
                Some(t) => opt matches Some(s) && s@ == t.schema,
                None => opt is None,
            }),
    {
        Ok(self.state.fetch_schema(table_name))
    }

    /// The row under `target` in table `table_name`, if any.
    pub fn fetch_data(&self, table_name: &Vec<u8>, target: &Key) -> (r: Result<
        Option<Vec<u8>>,
        Error,
    >)
        requires
            state_wf(self.state@),
        ensures
            r matches Ok(opt) && (match find_table(self.state@, table_name@) {
                Some(t) => match find_row(t.rows, target@) {
                    Some(row) => opt matches Some(v) && v@ == row,
                    None => opt is None,
                },
                None => opt is None,
            }),
    {
        Ok(self.state.fetch_data(table_name, target))
    }

    /// Every row of table `table_name` in key order; empty if the table
    /// is absent. Repeated scans of one unmodified store agree.
    pub fn scan_data(&self, table_name: &Vec<u8>) -> (r: Result<Vec<RowEntry>, Error>)
        requires
            state_wf(self.state@),
        ensures
            r matches Ok(v) && (match find_table(self.state@, table_name@) {
                Some(t) => rows_vw(v@) == t.rows && rows_sorted(rows_vw(v@)),
                None => v@.len() == 0,
            }),
    {
        Ok(self.state.scan_data(table_name))
    }

    /// Adds a schema; a duplicate table name is an error.
    pub fn insert_schema(&mut self, schema: Schema) -> (r: Result<(), Error>)
        requires
            state_wf(old(self).state@),
        ensures
            state_wf(final(self).state@),
            match find_table(old(self).state@, schema@.name) {
                Some(_) => r matches Err(e) && is_storage_msg(
                    e,
                    sanakirja_error_message(SanakirjaError::SchemaExists),
                ) && final(self).state@ == old(self).state@,
                None => {
                    &&& r is Ok
                    &&& final(self).state@.len() == old(self).state@.len() + 1
                    &&& find_table(final(self).state@, schema@.name) == Some(
                        TableV { schema: schema@, rows: Seq::empty() },
                    )
                    &&& forall|n: Seq<u8>|
                        n != schema@.name ==> #[trigger] find_table(final(self).state@, n)
                            == find_table(old(self).state@, n)
                },
            },
    {
        self.state.insert_schema(schema).map_storage_err()
    }

    /// Removes a schema and its rows; removing an absent name is not an
    /// error, the second removal included.
    pub fn delete_schema(&mut self, table_name: &Vec<u8>) -> (r: Result<(), Error>)
        requires
            state_wf(old(self).state@),
        ensures
            state_wf(final(self).state@),
            r is Ok,
            find_table(final(self).state@, table_name@) == None::<TableV>,
            forall|n: Seq<u8>|
                n != table_name@ ==> #[trigger] find_table(final(self).state@, n) == find_table(
                    old(self).state@,
                    n,
                ),
            final(self).state@.len() == old(self).state@.len() - (if find_table(
                old(self).state@,
                table_name@,
            ) is Some {
                1int
            } else {
                0int
            }),
    {
        self.state.delete_schema(table_name);
        Ok(())
    }

    /// Upserts keyed rows: an existing key is overwritten in place, the
    /// last write to one key wins.
    pub fn insert_data(&mut self, table_name: &Vec<u8>, new_rows: Vec<RowEntry>) -> (r: Result<
        (),
        Error,
    >)
        requires
            state_wf(old(self).state@),
        ensures
            state_wf(final(self).state@),
            match find_table(old(self).state@, table_name@) {
                None => r matches Err(e) && is_storage_msg(
                    e,
                    sanakirja_error_message(SanakirjaError::TableDoesNotExist),
                ) && final(self).state@ == old(self).state@,
                Some(t) => {
                    &&& r is Ok
                    &&& find_table(final(self).state@, table_name@) matches Some(t2)
                    &&& (find_table(final(self).state@, table_name@) matches Some(t2) ==> t2.schema
                        == t.schema && (forall|k: KeyV|
                        #[trigger] find_row(t2.rows, k) == crate::pristine::upserted(
                            t.rows,
                            rows_vw(new_rows@),
                            k,
                        )))
                    &&& forall|n: Seq<u8>|
                        n != table_name@ ==> #[trigger] find_table(final(self).state@, n)
                            == find_table(old(self).state@, n)
                },
            },
    {
        self.state.insert_data(table_name, new_rows).map_storage_err()
    }

    /// Removes the given keys; missing keys are silently skipped.
    pub fn delete_data(&mut self, table_name: &Vec<u8>, keys: Vec<Key>) -> (r: Result<(), Error>)
        requires
            state_wf(old(self).state@),
        ensures
            state_wf(final(self).state@),
            match find_table(old(self).state@, table_name@) {
                None => r matches Err(e) && is_storage_msg(
                    e,
                    sanakirja_error_message(SanakirjaError::TableDoesNotExist),
                ) && final(self).state@ == old(self).state@,
                Some(t) => {
                    &&& r is Ok
                    &&& find_table(final(self).state@, table_name@) matches Some(t2)
                    &&& (find_table(final(self).state@, table_name@) matches Some(t2) ==> t2.schema
                        == t.schema && (forall|k: KeyV|
                        #[trigger] find_row(t2.rows, k) == if crate::pristine::key_in(
                            crate::pristine::keys_vw(keys@),
                            k,
                        ) {
                            None::<Seq<u8>>
                        } else {
                            find_row(t.rows, k)
                        }))
                    &&& forall|n: Seq<u8>|
                        n != table_name@ ==> #[trigger] find_table(final(self).state@, n)
                            == find_table(old(self).state@, n)
                },
            },
    {
        self.state.delete_data(table_name, keys).map_storage_err()
    }

    /// Appends rows, each under a fresh surrogate key drawn from the
    /// random identifier source; a taken identifier falls back to the
    /// deterministic bound. On success exactly the supplied rows are
    /// appended, the i-th under the i-th of some fresh, pairwise-distinct
    /// surrogate keys, and every other key reads as before; the only
    /// error on an existing table is surrogate-key exhaustion, and any
    /// error leaves the store unchanged.
    pub fn append_data(&mut self, table_name: &Vec<u8>, new_rows: Vec<Vec<u8>>) -> (r: Result<
        (),
        Error,
    >)
        requires
            state_wf(old(self).state@),
        ensures
            state_wf(final(self).state@),
            r is Err ==> final(self).state@ == old(self).state@,
            match find_table(old(self).state@, table_name@) {
                None => r matches Err(e) && is_storage_msg(
                    e,
                    sanakirja_error_message(SanakirjaError::TableDoesNotExist),
                ),
                Some(t) => {
                    &&& (r matches Err(e) ==> is_storage_msg(
                        e,
                        sanakirja_error_message(SanakirjaError::KeyOverflow),
                    ))
                    &&& (new_rows@.len() == 0 ==> r is Ok)
                    &&& (new_rows@.len() == 1 && crate::pristine::uuid_ub(t.rows)
                        < 0x100000000000000000000000000000000 ==> r is Ok)
                    &&& (r is Ok ==> crate::pristine::append_effect(
                        old(self).state@,
                        final(self).state@,
                        table_name@,
                        crate::types::names_vw(new_rows@),
                    ))
                },
            },
    {
        let ghost orig = self.state@;
        match self.state.fetch_schema(table_name) {
            None => {
                return Err(err_into(SanakirjaError::TableDoesNotExist));
            },
            Some(_) => {},
        }
        let ghost t0 = find_table(orig, table_name@)->Some_0;
        let ghost data = crate::types::names_vw(new_rows@);
        let ghost mut gks: Seq<KeyV> = Seq::empty();
        let mut work = WorkersKVStorage { state: self.state.clone() };
        let mut j: usize = 0;
        proof {
            assert(data.subrange(0, 0) =~= Seq::<Seq<u8>>::empty());
        }
        while j < new_rows.len()
            invariant
                j <= new_rows@.len(),
                orig == old(self).state@,
                self.state@ == orig,
                state_wf(orig),
                state_wf(work.state@),
                data == crate::types::names_vw(new_rows@),
                gks.len() == j,
                find_table(orig, table_name@) == Some(t0),
                j == 0 ==> find_table(work.state@, table_name@) == Some(t0),
                find_table(work.state@, table_name@) matches Some(tc),
                find_table(work.state@, table_name@) matches Some(tc) ==> tc.schema == t0.schema
                    && tc.rows.len() == t0.rows.len() + j && crate::pristine::appended_with(
                    t0.rows,
                    tc.rows,
                    data.subrange(0, j as int),
                    gks,
                ),
                forall|n: Seq<u8>|
                    n != table_name@ ==> #[trigger] find_table(work.state@, n) == find_table(
                        orig,
                        n,
                    ),
            decreases new_rows@.len() - j,
        {
            let ghost tc_old = find_table(work.state@, table_name@)->Some_0;
            let ghost gpre = gks;
            let ghost dpre = data.subrange(0, j as int);
            let candidate: u128 = new_v4_u128();
            let key = Key::Uuid(candidate);
            let row = crate::types::clone_bytes(&new_rows[j]);
            let taken = work.state.fetch_data(table_name, &key);
            let ghost ck: KeyV = arbitrary();
            match taken {
                None => {
                    let entry = RowEntry { key, row };
                    let up = work.state.upsert_one(table_name, entry);
                    match up {
                        Ok(_) => {
                            proof {
                                ck = KeyV::Uuid(candidate as int);
                                assert(find_row(tc_old.rows, ck) is None);
                            }
                        },
                        Err(e) => {
                            return Err(err_into(e));
                        },
                    }
                },
                Some(_) => {
                    let mut one: Vec<Vec<u8>> = Vec::new();
                    one.push(row);
                    let ap = work.state.append_data(table_name, one);
                    match ap {
                        Ok(()) => {
                            proof {
                                let ub = crate::pristine::uuid_ub(tc_old.rows);
                                ck = KeyV::Uuid(ub);
                                crate::pristine::lemma_uuid_fresh(tc_old.rows, ub);
                                assert(find_row(tc_old.rows, ck) is None);
                                let tc = find_table(work.state@, table_name@)->Some_0;
                                assert(crate::types::names_vw(one@)[0] == new_rows@[j as int]@);
                                assert(find_row(tc.rows, ck) == Some(new_rows@[j as int]@));
                            }
                        },
                        Err(e) => {
                            proof {
                                if j == 0 && new_rows@.len() == 1 {
                                    assert(tc_old == t0);
                                }
                            }
                            return Err(err_into(e));
                        },
                    }
                },
            }
            proof {
                let tc = find_table(work.state@, table_name@)->Some_0;
                let dnow = data.subrange(0, j + 1);
                assert(dnow =~= dpre.push(new_rows@[j as int]@));
                // The drawn key is absent from the working table, so it is
                // none of the keys added so far and none of the original's.
                assert forall|i: int| 0 <= i < gpre.len() implies #[trigger] gpre[i] != ck by {
                    assert(find_row(tc_old.rows, gpre[i]) == Some(dpre[i]));
                }
                assert(!gpre.contains(ck)) by {
                    if gpre.contains(ck) {
                        let w = choose|w: int| 0 <= w < gpre.len() && gpre[w] == ck;
                        assert(gpre[w] != ck);
                    }
                }
                assert(find_row(t0.rows, ck) == find_row(tc_old.rows, ck));
                gks = gpre.push(ck);
                assert forall|i: int| 0 <= i < gks.len() implies ((#[trigger] gks[i]) is Uuid
                    && find_row(t0.rows, gks[i]) is None && find_row(tc.rows, gks[i]) == Some(
                    dnow[i],
                )) by {
                    if i < gpre.len() {
                        assert(gks[i] == gpre[i]);
                        assert(find_row(tc_old.rows, gpre[i]) == Some(dpre[i]));
                        assert(gpre[i] != ck);
                        assert(find_row(tc.rows, gpre[i]) == find_row(tc_old.rows, gpre[i]));
                    } else {
                        assert(gks[i] == ck);
                    }
                }
                assert forall|a: int, b: int| 0 <= a < b < gks.len() implies #[trigger] gks[a]
                    != #[trigger] gks[b] by {
                    if b < gpre.len() {
                        assert(gks[a] == gpre[a] && gks[b] == gpre[b]);
                    } else {
                        assert(gks[b] == ck && gks[a] == gpre[a]);
                    }
                }
                assert forall|k: KeyV| !gks.contains(k) implies #[trigger] find_row(tc.rows, k)
                    == find_row(t0.rows, k) by {
                    assert(k != ck) by {
                        if k == ck {
                            assert(gks[gks.len() - 1] == ck);
                        }
                    }
                    assert(!gpre.contains(k)) by {
                        if gpre.contains(k) {
                            let w = choose|w: int| 0 <= w < gpre.len() && gpre[w] == k;
                            assert(gks[w] == k);
                        }
                    }
                    assert(find_row(tc.rows, k) == find_row(tc_old.rows, k));
                }
                assert(crate::pristine::appended_with(t0.rows, tc.rows, dnow, gks));
            }
            j += 1;
        }
        proof {
            assert(data.subrange(0, new_rows@.len() as int) =~= data);
        }
        self.state = work.state;
        Ok(())
    }
}


/// The simplest constrained-runtime adapter: one bucket, described only
/// through the same storage contract.
#[derive(Debug)]
pub struct WorkersStorage {
    pub bucket: WorkersKVStorage,
}

impl WorkersStorage {
    /// An adapter over an empty bucket.
    pub fn new() -> (r: Result<WorkersStorage, Error>)
        ensures
            r matches Ok(s) && state_wf(s.bucket.state@) && s.bucket.state@ =~= Seq::<
                TableV,
            >::empty(),
    {
        Ok(WorkersStorage { bucket: WorkersKVStorage::new() })
    }

    /// The schema stored under `table_name` in the bucket, if any.
    pub fn fetch_schema(&self, table_name: &Vec<u8>) -> (r: Result<Option<Schema>, Error>)
        requires
            state_wf(self.bucket.state@),
        ensures
            r matches Ok(opt) && (match find_table(self.bucket.state@, table_name@) {
                Some(t) => opt matches Some(s) && s@ == t.schema,
                None => opt is None,
            }),
    {
        self.bucket.fetch_schema(table_name)
    }
}
} // verus!
