//! The transactional paged ("pristine") store: a root directory holding a
//! version marker and the schema index, read and written through snapshot
//! transactions. A mutable transaction stages a copy of the reachable
//! state and commits it atomically by swapping the root; readers opened
//! earlier never observe any of its effects.

use vstd::prelude::*;

use crate::codec::{
    dec_state, enc_state, enc_state_spec, row_entry_valid, table_valid, tables_valid,
};
use crate::error::SanakirjaError;
use crate::l64::{le_val, lemma_le_round_trip, push_u64_le, read_u64_le, u64_le_bytes};
use crate::types::{
    bytes_eq, bytes_lt, clone_bytes, clone_rows, find_row, key_lt, key_lt_exec, key_eq_exec,
    lemma_key_total, lemma_key_trans, lemma_lex_total, lemma_lex_trans, lex_lt, rows_sorted,
    rows_vw, tables_vw, Key, KeyV, RowEntry, RowEntryV, Schema, SchemaV, Table, TableV,
};

verus! {

/// The root slots of the store file: the version marker and the schema
/// index, in that order.
#[derive(Clone, Copy, Debug, PartialEq, Eq, Structural)]
pub enum Root {
    Version,
    Schemas,
}

impl Root {
    /// The fixed slot index of this root.
    pub fn index(&self) -> (r: usize)
        ensures
            r == root_index(*self),
    {
        match self {
            Root::Version => 0,
            Root::Schemas => 1,
        }
    }
}

/// The fixed slot index of each root.
pub open spec fn root_index(r: Root) -> int {
    match r {
        Root::Version => 0,
        Root::Schemas => 1,
    }
}

/// The engine's own version marker, written once at file creation.
pub const VERSION: u64 = 1;

/// The table whose schema carries `name`, if any: the first match.
pub open spec fn find_table(ts: Seq<TableV>, name: Seq<u8>) -> Option<TableV>
    decreases ts.len(),
{
    if ts.len() == 0 {
        None
    } else if ts[0].schema.name == name {
        Some(ts[0])
    } else {
        find_table(ts.subrange(1, ts.len() as int), name)
    }
}

/// Tables strictly sorted by schema name: scan order is name order, and
/// names are unique.
pub open spec fn tables_sorted(ts: Seq<TableV>) -> bool {
    forall|i: int, j: int|
        0 <= i < j < ts.len() ==> #[trigger] lex_lt(ts[i].schema.name, ts[j].schema.name)
}

/// The well-formed reachable state: valid for the record layout, tables
/// in name order, every table's rows in key order.
pub open spec fn state_wf(ts: Seq<TableV>) -> bool {
    &&& tables_valid(ts)
    &&& tables_sorted(ts)
    &&& forall|i: int| 0 <= i < ts.len() ==> rows_sorted(#[trigger] ts[i].rows)
}

/// In a name-sorted table list, the table at an index is what
/// `find_table` yields for its name.
pub proof fn lemma_find_table_at(ts: Seq<TableV>, i: int)
    requires
        tables_sorted(ts),
        0 <= i < ts.len(),
    ensures
        find_table(ts, ts[i].schema.name) == Some(ts[i]),
    decreases ts.len(),
{
    if i > 0 {
        assert(lex_lt(ts[0].schema.name, ts[i].schema.name));
        lemma_lex_total(ts[0].schema.name, ts[i].schema.name);
        let tail = ts.subrange(1, ts.len() as int);
        assert forall|p: int, q: int| 0 <= p < q < tail.len() implies #[trigger] lex_lt(
            tail[p].schema.name,
            tail[q].schema.name,
        ) by {
            assert(lex_lt(ts[p + 1].schema.name, ts[q + 1].schema.name));
        }
        lemma_find_table_at(tail, i - 1);
    }
}

/// A name that no table carries is absent from the list.
pub proof fn lemma_find_table_none(ts: Seq<TableV>, name: Seq<u8>)
    requires
        forall|i: int| 0 <= i < ts.len() ==> #[trigger] ts[i].schema.name != name,
    ensures
        find_table(ts, name) == None::<TableV>,
    decreases ts.len(),
{
    if ts.len() > 0 {
        let tail = ts.subrange(1, ts.len() as int);
        assert forall|i: int| 0 <= i < tail.len() implies #[trigger] tail[i].schema.name != name by {
            assert(tail[i] == ts[i + 1]);
        }
        lemma_find_table_none(tail, name);
    }
}

/// Inserting a table at its sorted position: the new name is now found,
/// every other name finds what it found before, and order is kept.
pub proof fn lemma_sorted_insert_find_table(ts: Seq<TableV>, i: int, t: TableV)
    requires
        tables_sorted(ts),
        0 <= i <= ts.len(),
        forall|j: int| 0 <= j < i ==> lex_lt(#[trigger] ts[j].schema.name, t.schema.name),
        forall|j: int| i <= j < ts.len() ==> lex_lt(t.schema.name, #[trigger] ts[j].schema.name),
    ensures
        tables_sorted(ts.insert(i, t)),
        forall|n: Seq<u8>|
            #[trigger] find_table(ts.insert(i, t), n) == if n == t.schema.name {
                Some(t)
            } else {
                find_table(ts, n)
            },
{
    let p = ts.insert(i, t);
    assert forall|a: int, b: int| 0 <= a < b < p.len() implies #[trigger] lex_lt(
        p[a].schema.name,
        p[b].schema.name,
    ) by {
        assert(p[i] == t);
        if a < i && b < i {
            assert(p[a] == ts[a] && p[b] == ts[b]);
            assert(lex_lt(ts[a].schema.name, ts[b].schema.name));
        } else if a < i && b == i {
            assert(p[a] == ts[a]);
            assert(lex_lt(ts[a].schema.name, t.schema.name));
        } else if a < i && b > i {
            assert(p[a] == ts[a] && p[b] == ts[b - 1]);
            assert(lex_lt(ts[a].schema.name, t.schema.name));
            assert(lex_lt(t.schema.name, ts[b - 1].schema.name));
            lemma_lex_trans(p[a].schema.name, t.schema.name, p[b].schema.name);
        } else if a == i {
            assert(p[b] == ts[b - 1]);
            assert(lex_lt(t.schema.name, ts[b - 1].schema.name));
        } else {
            assert(p[a] == ts[a - 1] && p[b] == ts[b - 1]);
            assert(lex_lt(ts[a - 1].schema.name, ts[b - 1].schema.name));
        }
    }
    assert forall|n: Seq<u8>| true implies #[trigger] find_table(p, n) == (if n == t.schema.name {
        Some(t)
    } else {
        find_table(ts, n)
    }) by {
        if n == t.schema.name {
            lemma_find_table_at(p, i);
        } else {
            match find_table(ts, n) {
                Some(found) => {
                    lemma_find_table_witness(ts, n);
                    let k = choose|k: int|
                        0 <= k < ts.len() && #[trigger] ts[k].schema.name == n && ts[k] == found;
                    if k < i {
                        assert(p[k] == ts[k]);
                        lemma_find_table_at(p, k);
                    } else {
                        assert(p[k + 1] == ts[k]);
                        lemma_find_table_at(p, k + 1);
                    }
                },
                None => {
                    assert forall|k: int| 0 <= k < p.len() implies #[trigger] p[k].schema.name
                        != n by {
                        if k < i {
                            assert(p[k] == ts[k]);
                            lemma_find_table_index_absent(ts, n, k);
                        } else if k == i {
                        } else {
                            assert(p[k] == ts[k - 1]);
                            lemma_find_table_index_absent(ts, n, k - 1);
                        }
                    }
                    lemma_find_table_none(p, n);
                },
            }
        }
    }
}

/// A found table stands at some index with its name.
pub proof fn lemma_find_table_witness(ts: Seq<TableV>, name: Seq<u8>)
    requires
        find_table(ts, name) matches Some(t),
    ensures
        exists|k: int|
            0 <= k < ts.len() && #[trigger] ts[k].schema.name == name && ts[k] == find_table(
                ts,
                name,
            )->Some_0,
    decreases ts.len(),
{
    if ts.len() > 0 && ts[0].schema.name != name {
        lemma_find_table_witness(ts.subrange(1, ts.len() as int), name);
        let tail = ts.subrange(1, ts.len() as int);
        let k = choose|k: int|
            0 <= k < tail.len() && #[trigger] tail[k].schema.name == name && tail[k] == find_table(
                tail,
                name,
            )->Some_0;
        assert(ts[k + 1].schema.name == name && ts[k + 1] == find_table(ts, name)->Some_0);
    }
}

/// If `find_table` misses, no index carries the name.
pub proof fn lemma_find_table_index_absent(ts: Seq<TableV>, name: Seq<u8>, k: int)
    requires
        find_table(ts, name) == None::<TableV>,
        0 <= k < ts.len(),
    ensures
        ts[k].schema.name != name,
    decreases ts.len(),
{
    if k > 0 {
        lemma_find_table_index_absent(ts.subrange(1, ts.len() as int), name, k - 1);
    }
}

/// Removing the table at an index: its name is now absent, every other
/// name finds what it found before, and order is kept.
pub proof fn lemma_sorted_remove_find_table(ts: Seq<TableV>, i: int)
    requires
        tables_sorted(ts),
        0 <= i < ts.len(),
    ensures
        tables_sorted(ts.remove(i)),
        forall|n: Seq<u8>|
            #[trigger] find_table(ts.remove(i), n) == if n == ts[i].schema.name {
                None::<TableV>
            } else {
                find_table(ts, n)
            },
{
    let p = ts.remove(i);
    assert forall|a: int, b: int| 0 <= a < b < p.len() implies #[trigger] lex_lt(
        p[a].schema.name,
        p[b].schema.name,
    ) by {
        let a2: int = if a < i {
            a
        } else {
            a + 1
        };
        let b2: int = if b < i {
            b
        } else {
            b + 1
        };
        assert(p[a] == ts[a2] && p[b] == ts[b2]);
    }
    assert forall|n: Seq<u8>| true implies #[trigger] find_table(p, n) == (if n
        == ts[i].schema.name {
        None::<TableV>
    } else {
        find_table(ts, n)
    }) by {
        if n == ts[i].schema.name {
            assert forall|k: int| 0 <= k < p.len() implies #[trigger] p[k].schema.name != n by {
                let k2: int = if k < i {
                    k
                } else {
                    k + 1
                };
                assert(p[k] == ts[k2]);
                lemma_find_table_at(ts, i);
                if k2 < i {
                    assert(lex_lt(ts[k2].schema.name, ts[i].schema.name));
                    lemma_lex_total(ts[k2].schema.name, ts[i].schema.name);
                } else {
                    assert(lex_lt(ts[i].schema.name, ts[k2].schema.name));
                    lemma_lex_total(ts[i].schema.name, ts[k2].schema.name);
                }
            }
            lemma_find_table_none(p, n);
        } else {
            match find_table(ts, n) {
                Some(found) => {
                    lemma_find_table_witness(ts, n);
                    let k = choose|k: int|
                        0 <= k < ts.len() && #[trigger] ts[k].schema.name == n && ts[k] == found;
                    if k < i {
                        assert(p[k] == ts[k]);
                        lemma_find_table_at(p, k);
                    } else {
                        assert(k != i);
                        assert(p[k - 1] == ts[k]);
                        lemma_find_table_at(p, k - 1);
                    }
                },
                None => {
                    assert forall|k: int| 0 <= k < p.len() implies #[trigger] p[k].schema.name
                        != n by {
                        let k2: int = if k < i {
                            k
                        } else {
                            k + 1
                        };
                        assert(p[k] == ts[k2]);
                        lemma_find_table_index_absent(ts, n, k2);
                    }
                    lemma_find_table_none(p, n);
                },
            }
        }
    }
}


/// A found row stands at some index with its key.
pub proof fn lemma_find_row_witness(rows: Seq<RowEntryV>, k: KeyV)
    requires
        find_row(rows, k) matches Some(v),
    ensures
        exists|j: int|
            0 <= j < rows.len() && #[trigger] rows[j].key == k && rows[j].row == find_row(
                rows,
                k,
            )->Some_0,
    decreases rows.len(),
{
    if rows.len() > 0 && rows[0].key != k {
        let tail = rows.subrange(1, rows.len() as int);
        lemma_find_row_witness(tail, k);
        let j = choose|j: int|
            0 <= j < tail.len() && #[trigger] tail[j].key == k && tail[j].row == find_row(
                tail,
                k,
            )->Some_0;
        assert(rows[j + 1].key == k && rows[j + 1].row == find_row(rows, k)->Some_0);
    }
}

/// If `find_row` misses, no index carries the key.
pub proof fn lemma_find_row_index_absent(rows: Seq<RowEntryV>, k: KeyV, j: int)
    requires
        find_row(rows, k) == None::<Seq<u8>>,
        0 <= j < rows.len(),
    ensures
        rows[j].key != k,
    decreases rows.len(),
{
    if j > 0 {
        lemma_find_row_index_absent(rows.subrange(1, rows.len() as int), k, j - 1);
    }
}

/// Inserting a row at its sorted position: the new key is now found,
/// every other key finds what it found before, and order is kept.
pub proof fn lemma_sorted_insert_find_row(rows: Seq<RowEntryV>, i: int, e: RowEntryV)
    requires
        rows_sorted(rows),
        0 <= i <= rows.len(),
        forall|j: int| 0 <= j < i ==> key_lt(#[trigger] rows[j].key, e.key),
        forall|j: int| i <= j < rows.len() ==> key_lt(e.key, #[trigger] rows[j].key),
    ensures
        rows_sorted(rows.insert(i, e)),
        forall|k: KeyV|
            #[trigger] find_row(rows.insert(i, e), k) == if k == e.key {
                Some(e.row)
            } else {
                find_row(rows, k)
            },
{
    let p = rows.insert(i, e);
    assert forall|a: int, b: int| 0 <= a < b < p.len() implies #[trigger] key_lt(
        p[a].key,
        p[b].key,
    ) by {
        assert(p[i] == e);
        if a < i && b < i {
            assert(p[a] == rows[a] && p[b] == rows[b]);
            assert(key_lt(rows[a].key, rows[b].key));
        } else if a < i && b == i {
            assert(p[a] == rows[a]);
            assert(key_lt(rows[a].key, e.key));
        } else if a < i && b > i {
            assert(p[a] == rows[a] && p[b] == rows[b - 1]);
            assert(key_lt(rows[a].key, e.key));
            assert(key_lt(e.key, rows[b - 1].key));
            lemma_key_trans(p[a].key, e.key, p[b].key);
        } else if a == i {
            assert(p[b] == rows[b - 1]);
            assert(key_lt(e.key, rows[b - 1].key));
        } else {
            assert(p[a] == rows[a - 1] && p[b] == rows[b - 1]);
            assert(key_lt(rows[a - 1].key, rows[b - 1].key));
        }
    }
    assert forall|k: KeyV| true implies #[trigger] find_row(p, k) == (if k == e.key {
        Some(e.row)
    } else {
        find_row(rows, k)
    }) by {
        if k == e.key {
            lemma_sorted_find_row_at(p, i);
        } else {
            match find_row(rows, k) {
                Some(found) => {
                    lemma_find_row_witness(rows, k);
                    let j = choose|j: int|
                        0 <= j < rows.len() && #[trigger] rows[j].key == k && rows[j].row == found;
                    if j < i {
                        assert(p[j] == rows[j]);
                        lemma_sorted_find_row_at(p, j);
                    } else {
                        assert(p[j + 1] == rows[j]);
                        lemma_sorted_find_row_at(p, j + 1);
                    }
                },
                None => {
                    assert forall|j: int| 0 <= j < p.len() implies #[trigger] p[j].key != k by {
                        if j < i {
                            assert(p[j] == rows[j]);
                            lemma_find_row_index_absent(rows, k, j);
                        } else if j == i {
                        } else {
                            assert(p[j] == rows[j - 1]);
                            lemma_find_row_index_absent(rows, k, j - 1);
                        }
                    }
                    crate::types::lemma_find_row_none(p, k);
                },
            }
        }
    }
}

/// In a key-sorted row list, the row at an index is what `find_row`
/// yields for its key.
pub proof fn lemma_sorted_find_row_at(rows: Seq<RowEntryV>, i: int)
    requires
        rows_sorted(rows),
        0 <= i < rows.len(),
    ensures
        find_row(rows, rows[i].key) == Some(rows[i].row),
    decreases rows.len(),
{
    if i > 0 {
        assert(key_lt(rows[0].key, rows[i].key));
        lemma_key_total(rows[0].key, rows[i].key);
        let tail = rows.subrange(1, rows.len() as int);
        assert forall|p: int, q: int| 0 <= p < q < tail.len() implies #[trigger] key_lt(
            tail[p].key,
            tail[q].key,
        ) by {
            assert(key_lt(rows[p + 1].key, rows[q + 1].key));
        }
        lemma_sorted_find_row_at(tail, i - 1);
    }
}

/// Replacing the row at an index with one of the same key: that key now
/// finds the new row, every other key is untouched, order is kept.
pub proof fn lemma_sorted_update_find_row(rows: Seq<RowEntryV>, i: int, e: RowEntryV)
    requires
        rows_sorted(rows),
        0 <= i < rows.len(),
        rows[i].key == e.key,
    ensures
        rows_sorted(rows.update(i, e)),
        forall|k: KeyV|
            #[trigger] find_row(rows.update(i, e), k) == if k == e.key {
                Some(e.row)
            } else {
                find_row(rows, k)
            },
{
    let p = rows.update(i, e);
    assert forall|a: int, b: int| 0 <= a < b < p.len() implies #[trigger] key_lt(
        p[a].key,
        p[b].key,
    ) by {
        assert(p[a].key == rows[a].key && p[b].key == rows[b].key);
    }
    assert forall|k: KeyV| true implies #[trigger] find_row(p, k) == (if k == e.key {
        Some(e.row)
    } else {
        find_row(rows, k)
    }) by {
        if k == e.key {
            lemma_sorted_find_row_at(p, i);
        } else {
            match find_row(rows, k) {
                Some(found) => {
                    lemma_find_row_witness(rows, k);
                    let j = choose|j: int|
                        0 <= j < rows.len() && #[trigger] rows[j].key == k && rows[j].row == found;
                    assert(j != i);
                    assert(p[j] == rows[j]);
                    lemma_sorted_find_row_at(p, j);
                },
                None => {
                    assert forall|j: int| 0 <= j < p.len() implies #[trigger] p[j].key != k by {
                        lemma_find_row_index_absent(rows, k, j);
                        assert(p[j].key == rows[j].key);
                    }
                    crate::types::lemma_find_row_none(p, k);
                },
            }
        }
    }
}

/// Removing the row at an index: its key is now absent, every other key
/// finds what it found before, and order is kept.
pub proof fn lemma_sorted_remove_find_row(rows: Seq<RowEntryV>, i: int)
    requires
        rows_sorted(rows),
        0 <= i < rows.len(),
    ensures
        rows_sorted(rows.remove(i)),
        forall|k: KeyV|
            #[trigger] find_row(rows.remove(i), k) == if k == rows[i].key {
                None::<Seq<u8>>
            } else {
                find_row(rows, k)
            },
{
    let p = rows.remove(i);
    assert forall|a: int, b: int| 0 <= a < b < p.len() implies #[trigger] key_lt(
        p[a].key,
        p[b].key,
    ) by {
        let a2: int = if a < i {
            a
        } else {
            a + 1
        };
        let b2: int = if b < i {
            b
        } else {
            b + 1
        };
        assert(p[a] == rows[a2] && p[b] == rows[b2]);
    }
    assert forall|k: KeyV| true implies #[trigger] find_row(p, k) == (if k == rows[i].key {
        None::<Seq<u8>>
    } else {
        find_row(rows, k)
    }) by {
        if k == rows[i].key {
            assert forall|j: int| 0 <= j < p.len() implies #[trigger] p[j].key != k by {
                let j2: int = if j < i {
                    j
                } else {
                    j + 1
                };
                assert(p[j] == rows[j2]);
                if j2 < i {
                    assert(key_lt(rows[j2].key, rows[i].key));
                    lemma_key_total(rows[j2].key, rows[i].key);
                } else {
                    assert(key_lt(rows[i].key, rows[j2].key));
                    lemma_key_total(rows[i].key, rows[j2].key);
                }
            }
            crate::types::lemma_find_row_none(p, k);
        } else {
            match find_row(rows, k) {
                Some(found) => {
                    lemma_find_row_witness(rows, k);
                    let j = choose|j: int|
                        0 <= j < rows.len() && #[trigger] rows[j].key == k && rows[j].row == found;
                    assert(j != i);
                    if j < i {
                        assert(p[j] == rows[j]);
                        lemma_sorted_find_row_at(p, j);
                    } else {
                        assert(p[j - 1] == rows[j]);
                        lemma_sorted_find_row_at(p, j - 1);
                    }
                },
                None => {
                    assert forall|j: int| 0 <= j < p.len() implies #[trigger] p[j].key != k by {
                        let j2: int = if j < i {
                            j
                        } else {
                            j + 1
                        };
                        assert(p[j] == rows[j2]);
                        lemma_find_row_index_absent(rows, k, j2);
                    }
                    crate::types::lemma_find_row_none(p, k);
                },
            }
        }
    }
}

/// Replacing the table at an index with one of the same name: that name
/// now finds the new table, every other name is untouched, order is kept.
pub proof fn lemma_sorted_update_find_table(ts: Seq<TableV>, i: int, t: TableV)
    requires
        tables_sorted(ts),
        0 <= i < ts.len(),
        ts[i].schema.name == t.schema.name,
    ensures
        tables_sorted(ts.update(i, t)),
        forall|n: Seq<u8>|
            #[trigger] find_table(ts.update(i, t), n) == if n == t.schema.name {
                Some(t)
            } else {
                find_table(ts, n)
            },
{
    let p = ts.update(i, t);
    assert forall|a: int, b: int| 0 <= a < b < p.len() implies #[trigger] lex_lt(
        p[a].schema.name,
        p[b].schema.name,
    ) by {
        assert(p[a].schema.name == ts[a].schema.name && p[b].schema.name == ts[b].schema.name);
        assert(lex_lt(ts[a].schema.name, ts[b].schema.name));
    }
    assert forall|n: Seq<u8>| true implies #[trigger] find_table(p, n) == (if n == t.schema.name {
        Some(t)
    } else {
        find_table(ts, n)
    }) by {
        if n == t.schema.name {
            lemma_find_table_at(p, i);
        } else {
            match find_table(ts, n) {
                Some(found) => {
                    lemma_find_table_witness(ts, n);
                    let k = choose|k: int|
                        0 <= k < ts.len() && #[trigger] ts[k].schema.name == n && ts[k] == found;
                    assert(k != i);
                    assert(p[k] == ts[k]);
                    lemma_find_table_at(p, k);
                },
                None => {
                    assert forall|k: int| 0 <= k < p.len() implies #[trigger] p[k].schema.name
                        != n by {
                        lemma_find_table_index_absent(ts, n, k);
                        assert(p[k].schema.name == ts[k].schema.name);
                    }
                    lemma_find_table_none(p, n);
                },
            }
        }
    }
}

/// Records that any executable row entry fits the record layout.
pub fn note_entry_valid(e: &RowEntry)
    ensures
        row_entry_valid(e@),
{
    let _r: u64 = e.row.len() as u64;
    match &e.key {
        Key::Bytes(b) => {
            let _b: u64 = b.len() as u64;
        },
        _ => {},
    }
}

/// Records that any executable schema fits the record layout.
pub fn note_schema_valid(s: &Schema)
    ensures
        crate::codec::schema_valid(s@),
{
    let _n: u64 = s.table_name.len() as u64;
    let _p: u64 = s.payload.len() as u64;
}

/// The first index whose table name is not below `name`; tables before
/// it are strictly below `name`.
fn table_search(ts: &Vec<Table>, name: &Vec<u8>) -> (r: usize)
    requires
        tables_sorted(tables_vw(ts@)),
    ensures
        r <= ts@.len(),
        forall|j: int| 0 <= j < r ==> lex_lt(#[trigger] tables_vw(ts@)[j].schema.name, name@),
        r < ts@.len() ==> !lex_lt(tables_vw(ts@)[r as int].schema.name, name@),
{
    let mut i: usize = 0;
    while i < ts.len() && bytes_lt(&ts[i].schema.table_name, name)
        invariant
            i <= ts@.len(),
            forall|j: int| 0 <= j < i ==> lex_lt(#[trigger] tables_vw(ts@)[j].schema.name, name@),
        decreases ts@.len() - i,
    {
        proof {
            assert(tables_vw(ts@)[i as int].schema.name == ts@[i as int]@.schema.name);
        }
        i += 1;
    }
    i
}

/// The first index whose key is not below `key`; rows before it are
/// strictly below `key`.
fn row_search(rows: &Vec<RowEntry>, key: &Key) -> (r: usize)
    requires
        rows_sorted(rows_vw(rows@)),
    ensures
        r <= rows@.len(),
        forall|j: int| 0 <= j < r ==> key_lt(#[trigger] rows_vw(rows@)[j].key, key@),
        r < rows@.len() ==> !key_lt(rows_vw(rows@)[r as int].key, key@),
{
    let mut i: usize = 0;
    while i < rows.len() && key_lt_exec(&rows[i].key, key)
        invariant
            i <= rows@.len(),
            forall|j: int| 0 <= j < i ==> key_lt(#[trigger] rows_vw(rows@)[j].key, key@),
        decreases rows@.len() - i,
    {
        proof {
            assert(rows_vw(rows@)[i as int].key == rows@[i as int]@.key);
        }
        i += 1;
    }
    i
}

/// Upserts one entry into a key-sorted row list: an existing key is
/// overwritten in place, a new key is inserted at its sorted position.
pub fn upsert_row(rows: &mut Vec<RowEntry>, e: RowEntry) -> (grew: bool)
    requires
        rows_sorted(rows_vw(old(rows)@)),
        forall|j: int| 0 <= j < old(rows)@.len() ==> row_entry_valid(
            #[trigger] rows_vw(old(rows)@)[j],
        ),
    ensures
        rows_sorted(rows_vw(final(rows)@)),
        forall|j: int| 0 <= j < final(rows)@.len() ==> row_entry_valid(
            #[trigger] rows_vw(final(rows)@)[j],
        ),
        forall|k: KeyV|
            #[trigger] find_row(rows_vw(final(rows)@), k) == if k == e@.key {
                Some(e@.row)
            } else {
                find_row(rows_vw(old(rows)@), k)
            },
        grew == (find_row(rows_vw(old(rows)@), e@.key) is None),
        final(rows)@.len() == old(rows)@.len() + (if grew {
            1int
        } else {
            0int
        }),
{
    note_entry_valid(&e);
    let ghost orig = rows_vw(rows@);
    let i = row_search(rows, &e.key);
    let ghost gi = i as int;
    if i < rows.len() && key_eq_exec(&rows[i].key, &e.key) {
        proof {
            lemma_sorted_find_row_at(orig, gi);
            lemma_sorted_update_find_row(orig, gi, e@);
        }
        rows.remove(i);
        rows.insert(i, e);
        proof {
            assert(rows_vw(rows@) =~= orig.update(gi, e@));
            assert forall|j: int| 0 <= j < rows@.len() implies row_entry_valid(
                #[trigger] rows_vw(rows@)[j],
            ) by {
                if j != gi {
                    assert(rows_vw(rows@)[j] == orig[j]);
                }
            }
        }
        false
    } else {
        proof {
            lemma_key_total(orig[gi].key, e@.key);
            assert forall|j: int| gi <= j < orig.len() implies key_lt(
                e@.key,
                #[trigger] orig[j].key,
            ) by {
                if j == gi {
                    if gi < orig.len() {
                        lemma_key_total(orig[gi].key, e@.key);
                    }
                } else {
                    lemma_key_total(orig[gi].key, e@.key);
                    lemma_key_trans(e@.key, orig[gi].key, orig[j].key);
                }
            }
            assert forall|j: int| 0 <= j < orig.len() implies #[trigger] orig[j].key != e@.key by {
                if j < gi {
                    lemma_key_total(orig[j].key, e@.key);
                } else {
                    assert(key_lt(e@.key, orig[j].key));
                    lemma_key_total(orig[j].key, e@.key);
                }
            }
            crate::types::lemma_find_row_none(orig, e@.key);
            lemma_sorted_insert_find_row(orig, gi, e@);
        }
        rows.insert(i, e);
        proof {
            assert(rows_vw(rows@) =~= orig.insert(gi, e@));
            assert forall|j: int| 0 <= j < rows@.len() implies row_entry_valid(
                #[trigger] rows_vw(rows@)[j],
            ) by {
                if j < gi {
                    assert(rows_vw(rows@)[j] == orig[j]);
                } else if j > gi {
                    assert(rows_vw(rows@)[j] == orig[j - 1]);
                }
            }
        }
        true
    }
}

/// Removes one key from a key-sorted row list; a missing key is skipped.
pub fn remove_row(rows: &mut Vec<RowEntry>, key: &Key)
    requires
        rows_sorted(rows_vw(old(rows)@)),
        forall|j: int| 0 <= j < old(rows)@.len() ==> row_entry_valid(
            #[trigger] rows_vw(old(rows)@)[j],
        ),
    ensures
        rows_sorted(rows_vw(final(rows)@)),
        final(rows)@.len() <= old(rows)@.len(),
        forall|j: int| 0 <= j < final(rows)@.len() ==> row_entry_valid(
            #[trigger] rows_vw(final(rows)@)[j],
        ),
        forall|k: KeyV|
            #[trigger] find_row(rows_vw(final(rows)@), k) == if k == key@ {
                None::<Seq<u8>>
            } else {
                find_row(rows_vw(old(rows)@), k)
            },
{
    let ghost orig = rows_vw(rows@);
    let i = row_search(rows, key);
    let ghost gi = i as int;
    if i < rows.len() && key_eq_exec(&rows[i].key, key) {
        proof {
            lemma_sorted_remove_find_row(orig, gi);
        }
        rows.remove(i);
        proof {
            assert(rows_vw(rows@) =~= orig.remove(gi));
            assert forall|j: int| 0 <= j < rows@.len() implies row_entry_valid(
                #[trigger] rows_vw(rows@)[j],
            ) by {
                if j < gi {
                    assert(rows_vw(rows@)[j] == orig[j]);
                } else {
                    assert(rows_vw(rows@)[j] == orig[j + 1]);
                }
            }
        }
    } else {
        proof {
            assert forall|j: int| 0 <= j < orig.len() implies #[trigger] orig[j].key != key@ by {
                if j < gi {
                    lemma_key_total(orig[j].key, key@);
                } else if j == gi {
                    lemma_key_total(orig[gi].key, key@);
                } else {
                    lemma_key_total(orig[gi].key, key@);
                    lemma_key_trans(key@, orig[gi].key, orig[j].key);
                    lemma_key_total(orig[j].key, key@);
                }
            }
            crate::types::lemma_find_row_none(orig, key@);
        }
    }
}

/// The schema index and data trees reachable from the `Schemas` root:
/// one entry per table, in name order.
#[derive(Debug)]
pub struct StoreState {
    pub tables: Vec<Table>,
}

impl View for StoreState {
    type V = Seq<TableV>;

    open spec fn view(&self) -> Seq<TableV> {
        tables_vw(self.tables@)
    }
}

/// Copies a table list entry by entry.
pub fn clone_tables(v: &Vec<Table>) -> (r: Vec<Table>)
    ensures
        tables_vw(r@) == tables_vw(v@),
        r@.len() == v@.len(),
{
    let mut r: Vec<Table> = Vec::new();
    let mut i: usize = 0;
    while i < v.len()
        invariant
            i <= v@.len(),
            r@.len() == i,
            tables_vw(r@) =~= tables_vw(v@).subrange(0, i as int),
        decreases v@.len() - i,
    {
        r.push(v[i].clone());
        proof {
            assert(tables_vw(r@) =~= tables_vw(v@).subrange(0, i + 1));
        }
        i += 1;
    }
    proof {
        assert(tables_vw(v@).subrange(0, v@.len() as int) =~= tables_vw(v@));
    }
    r
}

impl Clone for StoreState {
    fn clone(&self) -> (r: StoreState)
        ensures
            r@ == self@,
    {
        StoreState { tables: clone_tables(&self.tables) }
    }
}

/// The row found for `k` after upserting `es` into `orig`, last write
/// winning.
pub open spec fn upserted(orig: Seq<RowEntryV>, es: Seq<RowEntryV>, k: KeyV) -> Option<Seq<u8>>
    decreases es.len(),
{
    if es.len() == 0 {
        find_row(orig, k)
    } else if es[es.len() - 1].key == k {
        Some(es[es.len() - 1].row)
    } else {
        upserted(orig, es.subrange(0, es.len() - 1), k)
    }
}

/// One above the largest surrogate (`Uuid`) key in `rows`; zero if none.
pub open spec fn uuid_ub(rows: Seq<RowEntryV>) -> int
    decreases rows.len(),
{
    if rows.len() == 0 {
        0
    } else {
        let head = match rows[0].key {
            KeyV::Uuid(x) => x + 1,
            _ => 0,
        };
        let rest = uuid_ub(rows.subrange(1, rows.len() as int));
        if head >= rest {
            head
        } else {
            rest
        }
    }
}

/// Every surrogate key in `rows` lies below `uuid_ub(rows)`.
pub proof fn lemma_uuid_ub(rows: Seq<RowEntryV>, j: int)
    requires
        0 <= j < rows.len(),
        rows[j].key matches KeyV::Uuid(x),
    ensures
        rows[j].key matches KeyV::Uuid(x) ==> x < uuid_ub(rows),
    decreases rows.len(),
{
    if j > 0 {
        let tail = rows.subrange(1, rows.len() as int);
        lemma_uuid_ub(tail, j - 1);
        assert(tail[j - 1] == rows[j]);
    }
}

/// A surrogate key at or above the bound is absent from `rows`.
pub proof fn lemma_uuid_fresh(rows: Seq<RowEntryV>, x: int)
    requires
        x >= uuid_ub(rows),
    ensures
        find_row(rows, KeyV::Uuid(x)) == None::<Seq<u8>>,
{
    assert forall|j: int| 0 <= j < rows.len() implies #[trigger] rows[j].key != KeyV::Uuid(x) by {
        match rows[j].key {
            KeyV::Uuid(y) => {
                lemma_uuid_ub(rows, j);
            },
            _ => {},
        }
    }
    crate::types::lemma_find_row_none(rows, KeyV::Uuid(x));
}

impl StoreState {
    /// A store with no tables: the state first reachable from a fresh
    /// schema index root.
    pub fn new() -> (r: StoreState)
        ensures
            r@ =~= Seq::<TableV>::empty(),
            state_wf(r@),
    {
        let r = StoreState { tables: Vec::new() };
        proof {
            assert(r@ =~= Seq::<TableV>::empty());
        }
        r
    }

    /// Every schema in the index, in table-name order.
    pub fn fetch_all_schemas(&self) -> (r: Vec<Schema>)
        ensures
            r@.len() == self@.len(),
            forall|i: int| 0 <= i < r@.len() ==> #[trigger] r@[i]@ == self@[i].schema,
    {
        let mut r: Vec<Schema> = Vec::new();
        let mut i: usize = 0;
        while i < self.tables.len()
            invariant
                i <= self.tables@.len(),
                r@.len() == i,
                forall|j: int| 0 <= j < i ==> #[trigger] r@[j]@ == self@[j].schema,
            decreases self.tables@.len() - i,
        {
            r.push(self.tables[i].schema.clone());
            i += 1;
        }
        r
    }

    /// The schema stored under `name`, if any.
    pub fn fetch_schema(&self, name: &Vec<u8>) -> (r: Option<Schema>)
        requires
            state_wf(self@),
        ensures
            match find_table(self@, name@) {
                Some(t) => r matches Some(s) && s@ == t.schema,
                None => r is None,
            },
    {
        let i = table_search(&self.tables, name);
        if i < self.tables.len() && bytes_eq(&self.tables[i].schema.table_name, name) {
            proof {
                lemma_find_table_at(self@, i as int);
            }
            Some(self.tables[i].schema.clone())
        } else {
            proof {
                self.lemma_absent_after_search(name@, i as int);
            }
            None
        }
    }

    /// After a miss at the search position, the name is absent.
    proof fn lemma_absent_after_search(&self, name: Seq<u8>, i: int)
        requires
            state_wf(self@),
            0 <= i <= self@.len(),
            forall|j: int| 0 <= j < i ==> lex_lt(#[trigger] self@[j].schema.name, name),
            i < self@.len() ==> !lex_lt(self@[i as int].schema.name, name),
            i < self@.len() ==> self@[i as int].schema.name != name,
        ensures
            find_table(self@, name) == None::<TableV>,
    {
        let ts = self@;
        assert forall|j: int| 0 <= j < ts.len() implies #[trigger] ts[j].schema.name != name by {
            if j < i {
                lemma_lex_total(ts[j].schema.name, name);
            } else if j == i {
            } else {
                lemma_lex_total(ts[i].schema.name, name);
                lemma_lex_trans(name, ts[i].schema.name, ts[j].schema.name);
                lemma_lex_total(ts[j].schema.name, name);
            }
        }
        lemma_find_table_none(ts, name);
    }

    /// The row stored under `key` in table `name`, if any.
    pub fn fetch_data(&self, name: &Vec<u8>, key: &Key) -> (r: Option<Vec<u8>>)
        requires
            state_wf(self@),
        ensures
            match find_table(self@, name@) {
                Some(t) => match find_row(t.rows, key@) {
                    Some(row) => r matches Some(v) && v@ == row,
                    None => r is None,
                },
                None => r is None,
            },
    {
        let i = table_search(&self.tables, name);
        if i < self.tables.len() && bytes_eq(&self.tables[i].schema.table_name, name) {
            proof {
                lemma_find_table_at(self@, i as int);
            }
            let rows = &self.tables[i].rows;
            let j = row_search(rows, key);
            if j < rows.len() && key_eq_exec(&rows[j].key, key) {
                proof {
                    lemma_sorted_find_row_at(rows_vw(rows@), j as int);
                }
                Some(clone_bytes(&rows[j].row))
            } else {
                proof {
                    let rv = rows_vw(rows@);
                    let gj = j as int;
                    assert forall|p: int| 0 <= p < rv.len() implies #[trigger] rv[p].key
                        != key@ by {
                        if p < gj {
                            lemma_key_total(rv[p].key, key@);
                        } else if p == gj {
                            lemma_key_total(rv[gj].key, key@);
                        } else {
                            lemma_key_total(rv[gj].key, key@);
                            lemma_key_trans(key@, rv[gj].key, rv[p].key);
                            lemma_key_total(rv[p].key, key@);
                        }
                    }
                    crate::types::lemma_find_row_none(rv, key@);
                }
                None
            }
        } else {
            proof {
                self.lemma_absent_after_search(name@, i as int);
            }
            None
        }
    }

    /// Every row of table `name` in key order; empty if the table is
    /// absent.
    pub fn scan_data(&self, name: &Vec<u8>) -> (r: Vec<RowEntry>)
        requires
            state_wf(self@),
        ensures
            match find_table(self@, name@) {
                Some(t) => rows_vw(r@) == t.rows && rows_sorted(rows_vw(r@)),
                None => r@.len() == 0,
            },
    {
        let i = table_search(&self.tables, name);
        if i < self.tables.len() && bytes_eq(&self.tables[i].schema.table_name, name) {
            proof {
                lemma_find_table_at(self@, i as int);
            }
            clone_rows(&self.tables[i].rows)
        } else {
            proof {
                self.lemma_absent_after_search(name@, i as int);
            }
            Vec::new()
        }
    }

    /// Adds a schema to the index. A duplicate table name is an error,
    /// never a silent overwrite.
    pub fn insert_schema(&mut self, schema: Schema) -> (r: Result<(), SanakirjaError>)
        requires
            state_wf(old(self)@),
        ensures
            state_wf(final(self)@),
            match find_table(old(self)@, schema@.name) {
                Some(_) => {
                    &&& r == Err::<(), SanakirjaError>(SanakirjaError::SchemaExists)
                    &&& final(self)@ == old(self)@
                },
                None => {
                    &&& r is Ok
                    &&& final(self)@.len() == old(self)@.len() + 1
                    &&& find_table(final(self)@, schema@.name) == Some(
                        TableV { schema: schema@, rows: Seq::empty() },
                    )
                    &&& forall|n: Seq<u8>|
                        n != schema@.name ==> #[trigger] find_table(final(self)@, n) == find_table(
                            old(self)@,
                            n,
                        )
                },
            },
    {
        note_schema_valid(&schema);
        let ghost orig = self@;
        let i = table_search(&self.tables, &schema.table_name);
        let ghost gi = i as int;
        if i < self.tables.len() && bytes_eq(&self.tables[i].schema.table_name, &schema.table_name) {
            proof {
                lemma_find_table_at(orig, gi);
            }
            Err(SanakirjaError::SchemaExists)
        } else {
            proof {
                self.lemma_absent_after_search(schema@.name, gi);
                assert forall|j: int| gi <= j < orig.len() implies lex_lt(
                    schema@.name,
                    #[trigger] orig[j].schema.name,
                ) by {
                    lemma_lex_total(orig[gi].schema.name, schema@.name);
                    if j > gi {
                        lemma_lex_trans(
                            schema@.name,
                            orig[gi].schema.name,
                            orig[j].schema.name,
                        );
                    }
                }
                lemma_sorted_insert_find_table(
                    orig,
                    gi,
                    TableV { schema: schema@, rows: Seq::empty() },
                );
            }
            let t = Table { schema, rows: Vec::new() };
            self.tables.insert(i, t);
            let _n: u64 = self.tables.len() as u64;
            proof {
                let newt = TableV { schema: schema@, rows: Seq::empty() };
                assert(rows_vw(Seq::<RowEntry>::empty()) =~= Seq::<RowEntryV>::empty());
                assert(self@.len() == orig.insert(gi, newt).len());
                assert forall|j: int| 0 <= j < self@.len() implies self@[j] == orig.insert(
                    gi,
                    newt,
                )[j] by {
                    if j < gi {
                        assert(self.tables@[j] == old(self).tables@[j]);
                    } else if j == gi {
                        assert(self.tables@[gi]@.rows =~= Seq::<RowEntryV>::empty());
                    } else {
                        assert(self.tables@[j] == old(self).tables@[j - 1]);
                    }
                }
                assert(self@ =~= orig.insert(gi, newt));
                assert forall|j: int| 0 <= j < self@.len() implies table_valid(
                    #[trigger] self@[j],
                ) by {
                    if j < gi {
                        assert(self@[j] == orig[j]);
                    } else if j > gi {
                        assert(self@[j] == orig[j - 1]);
                    } else {
                        assert(self@[j] == newt);
                    }
                }
                assert forall|j: int| 0 <= j < self@.len() implies rows_sorted(
                    #[trigger] self@[j].rows,
                ) by {
                    if j < gi {
                        assert(self@[j] == orig[j]);
                    } else if j > gi {
                        assert(self@[j] == orig[j - 1]);
                    }
                }
            }
            Ok(())
        }
    }

    /// Removes a schema and its data table; removing an absent name is a
    /// no-op.
    pub fn delete_schema(&mut self, name: &Vec<u8>)
        requires
            state_wf(old(self)@),
        ensures
            state_wf(final(self)@),
            find_table(final(self)@, name@) == None::<TableV>,
            forall|n: Seq<u8>|
                n != name@ ==> #[trigger] find_table(final(self)@, n) == find_table(
                    old(self)@,
                    n,
                ),
            final(self)@.len() == old(self)@.len() - (if find_table(old(self)@, name@) is Some {
                1int
            } else {
                0int
            }),
    {
        let ghost orig = self@;
        let i = table_search(&self.tables, name);
        let ghost gi = i as int;
        if i < self.tables.len() && bytes_eq(&self.tables[i].schema.table_name, name) {
            proof {
                lemma_find_table_at(orig, gi);
                lemma_sorted_remove_find_table(orig, gi);
            }
            self.tables.remove(i);
            proof {
                assert(self@ =~= orig.remove(gi));
                assert forall|j: int| 0 <= j < self@.len() implies table_valid(#[trigger] self@[j])
                    && rows_sorted(self@[j].rows) by {
                    if j < gi {
                        assert(self@[j] == orig[j]);
                    } else {
                        assert(self@[j] == orig[j + 1]);
                    }
                }
            }
        } else {
            proof {
                self.lemma_absent_after_search(name@, gi);
            }
        }
    }
}

/// The element-wise view of a key list.
pub open spec fn keys_vw(ks: Seq<Key>) -> Seq<KeyV> {
    ks.map_values(|k: Key| k@)
}

/// Whether `k` occurs in `ks`.
pub open spec fn key_in(ks: Seq<KeyV>, k: KeyV) -> bool {
    exists|j: int| 0 <= j < ks.len() && ks[j] == k
}

/// The row found for `k` after appending `data` under fresh surrogate
/// keys `base .. base + n`.
pub open spec fn appended_find(
    orig: Seq<RowEntryV>,
    data: Seq<Seq<u8>>,
    base: int,
    n: int,
    k: KeyV,
) -> Option<Seq<u8>> {
    match k {
        KeyV::Uuid(x) => if base <= x < base + n {
            Some(data[x - base])
        } else {
            find_row(orig, k)
        },
        _ => find_row(orig, k),
    }
}

/// `now` is `orig` with exactly the rows of `data` appended, the i-th
/// under the i-th of the fresh, pairwise-distinct surrogate keys `ks`;
/// every other key reads as before.
pub open spec fn appended_with(
    orig: Seq<RowEntryV>,
    now: Seq<RowEntryV>,
    data: Seq<Seq<u8>>,
    ks: Seq<KeyV>,
) -> bool {
    &&& ks.len() == data.len()
    &&& forall|i: int| 0 <= i < ks.len() ==> (#[trigger] ks[i]) is Uuid
    &&& forall|i: int| 0 <= i < ks.len() ==> find_row(orig, #[trigger] ks[i]) is None
    &&& forall|i: int, j: int| 0 <= i < j < ks.len() ==> #[trigger] ks[i] != #[trigger] ks[j]
    &&& forall|i: int| 0 <= i < ks.len() ==> find_row(now, #[trigger] ks[i]) == Some(data[i])
    &&& forall|k: KeyV| !ks.contains(k) ==> #[trigger] find_row(now, k) == find_row(orig, k)
}

/// The observable effect of a successful append to table `name`: the
/// named table gained exactly the rows of `data` under fresh distinct
/// surrogate keys, and every other table is untouched.
pub open spec fn append_effect(
    pre: Seq<TableV>,
    post: Seq<TableV>,
    name: Seq<u8>,
    data: Seq<Seq<u8>>,
) -> bool {
    &&& find_table(post, name) matches Some(t2)
    &&& (find_table(pre, name) matches Some(t) ==> (find_table(post, name) matches Some(t2)
        ==> t2.schema == t.schema && t2.rows.len() == t.rows.len() + data.len() && (exists|
    ks: Seq<KeyV>|
        #[trigger] appended_with(t.rows, t2.rows, data, ks))))
    &&& forall|n: Seq<u8>| n != name ==> #[trigger] find_table(post, n) == find_table(pre, n)
}

/// The surrogate bound of a valid row list never exceeds the key space.
pub proof fn lemma_uuid_ub_bound(rows: Seq<RowEntryV>)
    requires
        forall|i: int| 0 <= i < rows.len() ==> row_entry_valid(#[trigger] rows[i]),
    ensures
        uuid_ub(rows) <= 0x100000000000000000000000000000000,
    decreases rows.len(),
{
    if rows.len() > 0 {
        let tail = rows.subrange(1, rows.len() as int);
        assert forall|i: int| 0 <= i < tail.len() implies row_entry_valid(#[trigger] tail[i]) by {
            assert(tail[i] == rows[i + 1]);
        }
        lemma_uuid_ub_bound(tail);
        assert(row_entry_valid(rows[0]));
    }
}

impl StoreState {
    /// Upserts keyed rows into table `name`: an existing key is
    /// overwritten in place, a new key is added; the last write to one
    /// key wins.
    pub fn insert_data(&mut self, name: &Vec<u8>, new_rows: Vec<RowEntry>) -> (r: Result<
        (),
        SanakirjaError,
    >)
        requires
            state_wf(old(self)@),
        ensures
            state_wf(final(self)@),
            match find_table(old(self)@, name@) {
                None => {
                    &&& r == Err::<(), SanakirjaError>(SanakirjaError::TableDoesNotExist)
                    &&& final(self)@ == old(self)@
                },
                Some(t) => {
                    &&& r is Ok
                    &&& find_table(final(self)@, name@) matches Some(t2)
                    &&& (find_table(final(self)@, name@) matches Some(t2) ==> t2.schema == t.schema
                        && t2.rows.len() <= t.rows.len() + new_rows@.len() && (forall|k: KeyV|
                        #[trigger] find_row(t2.rows, k) == upserted(
                            t.rows,
                            rows_vw(new_rows@),
                            k,
                        )))
                    &&& forall|n2: Seq<u8>|
                        n2 != name@ ==> #[trigger] find_table(final(self)@, n2) == find_table(
                            old(self)@,
                            n2,
                        )
                },
            },
    {
        let ghost orig = self@;
        let i = table_search(&self.tables, name);
        let ghost gi = i as int;
        if i < self.tables.len() && bytes_eq(&self.tables[i].schema.table_name, name) {
            proof {
                lemma_find_table_at(orig, gi);
            }
            let mut t = self.tables.remove(i);
            proof {
                assert(self@.len() == orig.remove(gi).len());
                assert forall|j: int| 0 <= j < self@.len() implies self@[j] == orig.remove(gi)[j] by {
                    if j < gi {
                        assert(self.tables@[j] == old(self).tables@[j]);
                    } else {
                        assert(self.tables@[j] == old(self).tables@[j + 1]);
                    }
                }
                assert(self@ =~= orig.remove(gi));
                assert(t@ == orig[gi]);
            }
            let ghost t0 = orig[gi];
            let mut j: usize = 0;
            while j < new_rows.len()
                invariant
                    j <= new_rows@.len(),
                    rows_sorted(rows_vw(t.rows@)),
                    forall|p: int| 0 <= p < t.rows@.len() ==> row_entry_valid(
                        #[trigger] rows_vw(t.rows@)[p],
                    ),
                    t.rows@.len() <= t0.rows.len() + j,
                    t@.schema == t0.schema,
                    forall|k: KeyV|
                        #[trigger] find_row(rows_vw(t.rows@), k) == upserted(
                            t0.rows,
                            rows_vw(new_rows@).subrange(0, j as int),
                            k,
                        ),
                decreases new_rows@.len() - j,
            {
                let e = new_rows[j].clone();
                let ghost pre = rows_vw(new_rows@).subrange(0, j as int);
                let ghost pre2 = rows_vw(new_rows@).subrange(0, j + 1);
                upsert_row(&mut t.rows, e);
                proof {
                    assert(pre2 =~= pre.push(new_rows@[j as int]@));
                    assert(pre2.subrange(0, pre2.len() - 1) =~= pre);
                    assert forall|k: KeyV| true implies #[trigger] find_row(rows_vw(t.rows@), k)
                        == upserted(t0.rows, pre2, k) by {
                        if k == new_rows@[j as int]@.key {
                            assert(pre2[pre2.len() - 1] == new_rows@[j as int]@);
                        }
                    }
                }
                j += 1;
            }
            proof {
                assert(rows_vw(new_rows@).subrange(0, new_rows@.len() as int) =~= rows_vw(
                    new_rows@,
                ));
            }
            self.write_back(i, t, Ghost(orig));
            Ok(())
        } else {
            proof {
                self.lemma_absent_after_search(name@, gi);
            }
            Err(SanakirjaError::TableDoesNotExist)
        }
    }

    /// Puts a worked-on table back at its position in the name-sorted
    /// list.
    fn write_back(&mut self, i: usize, t: Table, Ghost(orig): Ghost<Seq<TableV>>)
        requires
            tables_sorted(orig),
            state_wf(orig),
            i < orig.len(),
            old(self)@ =~= orig.remove(i as int),
            t@.schema == orig[i as int].schema,
            rows_sorted(t@.rows),
            forall|p: int| 0 <= p < t@.rows.len() ==> row_entry_valid(#[trigger] t@.rows[p]),
        ensures
            state_wf(final(self)@),
            final(self)@ =~= orig.update(i as int, t@),
            find_table(final(self)@, orig[i as int].schema.name) == Some(t@),
            forall|n: Seq<u8>|
                n != orig[i as int].schema.name ==> #[trigger] find_table(final(self)@, n)
                    == find_table(orig, n),
    {
        let ghost tv = t@;
        let _r: u64 = t.rows.len() as u64;
        note_schema_valid(&t.schema);
        proof {
            assert(old(self)@.len() == old(self).tables@.len());
            assert(orig.remove(i as int).len() == orig.len() - 1);
        }
        self.tables.insert(i, t);
        let _n: u64 = self.tables.len() as u64;
        proof {
            let gi = i as int;
            assert(self@.len() == orig.len());
            assert forall|j: int| 0 <= j < self@.len() implies self@[j] == orig.update(gi, tv)[j] by {
                if j < gi {
                    assert(self.tables@[j] == old(self).tables@[j]);
                    assert(old(self)@[j] == orig.remove(gi)[j]);
                } else if j == gi {
                    assert(self.tables@[gi]@ == tv);
                } else {
                    assert(self.tables@[j] == old(self).tables@[j - 1]);
                    assert(old(self)@[j - 1] == orig.remove(gi)[j - 1]);
                }
            }
            assert(self@ =~= orig.update(gi, tv));
            lemma_sorted_update_find_table(orig, gi, tv);
            assert forall|j: int| 0 <= j < self@.len() implies table_valid(#[trigger] self@[j])
                && rows_sorted(self@[j].rows) by {
                if j != gi {
                    assert(self@[j] == orig[j]);
                }
            }
        }
    }

    /// Upserts one keyed row into table `name`: an existing key is
    /// overwritten in place (the row count is unchanged), a new key is
    /// added (the row count grows by one).
    pub fn upsert_one(&mut self, name: &Vec<u8>, e: RowEntry) -> (r: Result<bool, SanakirjaError>)
        requires
            state_wf(old(self)@),
        ensures
            state_wf(final(self)@),
            match find_table(old(self)@, name@) {
                None => {
                    &&& r == Err::<bool, SanakirjaError>(SanakirjaError::TableDoesNotExist)
                    &&& final(self)@ == old(self)@
                },
                Some(t) => {
                    &&& r == Ok::<bool, SanakirjaError>(find_row(t.rows, e@.key) is None)
                    &&& find_table(final(self)@, name@) matches Some(t2)
                    &&& (find_table(final(self)@, name@) matches Some(t2) ==> t2.schema == t.schema
                        && t2.rows.len() == t.rows.len() + (if find_row(t.rows, e@.key) is None {
                        1int
                    } else {
                        0int
                    }) && (forall|k: KeyV|
                        #[trigger] find_row(t2.rows, k) == if k == e@.key {
                            Some(e@.row)
                        } else {
                            find_row(t.rows, k)
                        }))
                    &&& forall|n2: Seq<u8>|
                        n2 != name@ ==> #[trigger] find_table(final(self)@, n2) == find_table(
                            old(self)@,
                            n2,
                        )
                },
            },
    {
        let ghost orig = self@;
        let i = table_search(&self.tables, name);
        let ghost gi = i as int;
        if i < self.tables.len() && bytes_eq(&self.tables[i].schema.table_name, name) {
            proof {
                lemma_find_table_at(orig, gi);
            }
            let mut t = self.tables.remove(i);
            proof {
                assert(self@.len() == orig.remove(gi).len());
                assert forall|j: int| 0 <= j < self@.len() implies self@[j] == orig.remove(gi)[j] by {
                    if j < gi {
                        assert(self.tables@[j] == old(self).tables@[j]);
                    } else {
                        assert(self.tables@[j] == old(self).tables@[j + 1]);
                    }
                }
                assert(self@ =~= orig.remove(gi));
                assert(t@ == orig[gi]);
            }
            let grew = upsert_row(&mut t.rows, e);
            self.write_back(i, t, Ghost(orig));
            Ok(grew)
        } else {
            proof {
                self.lemma_absent_after_search(name@, gi);
            }
            Err(SanakirjaError::TableDoesNotExist)
        }
    }

    /// Removes the given keys from table `name`; missing keys are
    /// silently skipped.
    pub fn delete_data(&mut self, name: &Vec<u8>, keys: Vec<Key>) -> (r: Result<
        (),
        SanakirjaError,
    >)
        requires
            state_wf(old(self)@),
        ensures
            state_wf(final(self)@),
            match find_table(old(self)@, name@) {
                None => {
                    &&& r == Err::<(), SanakirjaError>(SanakirjaError::TableDoesNotExist)
                    &&& final(self)@ == old(self)@
                },
                Some(t) => {
                    &&& r is Ok
                    &&& find_table(final(self)@, name@) matches Some(t2)
                    &&& (find_table(final(self)@, name@) matches Some(t2) ==> t2.schema == t.schema
                        && t2.rows.len() <= t.rows.len() && (forall|k: KeyV|
                        #[trigger] find_row(t2.rows, k) == if key_in(keys_vw(keys@), k) {
                            None::<Seq<u8>>
                        } else {
                            find_row(t.rows, k)
                        }))
                    &&& forall|n2: Seq<u8>|
                        n2 != name@ ==> #[trigger] find_table(final(self)@, n2) == find_table(
                            old(self)@,
                            n2,
                        )
                },
            },
    {
        let ghost orig = self@;
        let i = table_search(&self.tables, name);
        let ghost gi = i as int;
        if i < self.tables.len() && bytes_eq(&self.tables[i].schema.table_name, name) {
            proof {
                lemma_find_table_at(orig, gi);
            }
            let mut t = self.tables.remove(i);
            proof {
                assert(self@.len() == orig.remove(gi).len());
                assert forall|j: int| 0 <= j < self@.len() implies self@[j] == orig.remove(gi)[j] by {
                    if j < gi {
                        assert(self.tables@[j] == old(self).tables@[j]);
                    } else {
                        assert(self.tables@[j] == old(self).tables@[j + 1]);
                    }
                }
                assert(self@ =~= orig.remove(gi));
                assert(t@ == orig[gi]);
            }
            let ghost t0 = orig[gi];
            let mut j: usize = 0;
            while j < keys.len()
                invariant
                    j <= keys@.len(),
                    rows_sorted(rows_vw(t.rows@)),
                    forall|p: int| 0 <= p < t.rows@.len() ==> row_entry_valid(
                        #[trigger] rows_vw(t.rows@)[p],
                    ),
                    t.rows@.len() <= t0.rows.len(),
                    t@.schema == t0.schema,
                    forall|k: KeyV|
                        #[trigger] find_row(rows_vw(t.rows@), k) == if key_in(
                            keys_vw(keys@).subrange(0, j as int),
                            k,
                        ) {
                            None::<Seq<u8>>
                        } else {
                            find_row(t0.rows, k)
                        },
                decreases keys@.len() - j,
            {
                let ghost pre = keys_vw(keys@).subrange(0, j as int);
                let ghost pre2 = keys_vw(keys@).subrange(0, j + 1);
                remove_row(&mut t.rows, &keys[j]);
                proof {
                    assert(pre2 =~= pre.push(keys@[j as int]@));
                    assert forall|k: KeyV| true implies #[trigger] find_row(rows_vw(t.rows@), k)
                        == (if key_in(pre2, k) {
                        None::<Seq<u8>>
                    } else {
                        find_row(t0.rows, k)
                    }) by {
                        if k == keys@[j as int]@ {
                            assert(pre2[pre2.len() - 1] == k);
                            assert(key_in(pre2, k));
                        } else {
                            if key_in(pre, k) {
                                let w = choose|w: int| 0 <= w < pre.len() && pre[w] == k;
                                assert(pre2[w] == k);
                                assert(key_in(pre2, k));
                            } else if key_in(pre2, k) {
                                let w = choose|w: int| 0 <= w < pre2.len() && pre2[w] == k;
                                assert(w < pre.len() ==> pre[w] == k);
                                assert(w == pre.len() ==> k == keys@[j as int]@);
                                assert(false);
                            }
                        }
                    }
                }
                j += 1;
            }
            proof {
                assert(keys_vw(keys@).subrange(0, keys@.len() as int) =~= keys_vw(keys@));
            }
            self.write_back(i, t, Ghost(orig));
            Ok(())
        } else {
            proof {
                self.lemma_absent_after_search(name@, gi);
            }
            Err(SanakirjaError::TableDoesNotExist)
        }
    }

    /// Appends rows to table `name` under fresh surrogate keys: each new
    /// key is collision-free with every key already in the table, and
    /// the row count grows by exactly the number of rows supplied.
    pub fn append_data(&mut self, name: &Vec<u8>, new_rows: Vec<Vec<u8>>) -> (r: Result<
        (),
        SanakirjaError,
    >)
        requires
            state_wf(old(self)@),
        ensures
            state_wf(final(self)@),
            match find_table(old(self)@, name@) {
                None => {
                    &&& r == Err::<(), SanakirjaError>(SanakirjaError::TableDoesNotExist)
                    &&& final(self)@ == old(self)@
                },
                Some(t) => {
                    if uuid_ub(t.rows) + new_rows@.len()
                        > 0x100000000000000000000000000000000 {
                        &&& r == Err::<(), SanakirjaError>(SanakirjaError::KeyOverflow)
                        &&& final(self)@ == old(self)@
                    } else {
                        &&& r is Ok
                        &&& find_table(final(self)@, name@) matches Some(t2)
                        &&& (find_table(final(self)@, name@) matches Some(t2) ==> t2.schema
                            == t.schema && t2.rows.len() == t.rows.len() + new_rows@.len() && (
                        forall|k: KeyV|
                            #[trigger] find_row(t2.rows, k) == appended_find(
                                t.rows,
                                crate::types::names_vw(new_rows@),
                                uuid_ub(t.rows),
                                new_rows@.len() as int,
                                k,
                            )))
                        &&& forall|n2: Seq<u8>|
                            n2 != name@ ==> #[trigger] find_table(final(self)@, n2) == find_table(
                                old(self)@,
                                n2,
                            )
                    }
                },
            },
    {
        let ghost orig = self@;
        let i = table_search(&self.tables, name);
        let ghost gi = i as int;
        if i < self.tables.len() && bytes_eq(&self.tables[i].schema.table_name, name) {
            proof {
                lemma_find_table_at(orig, gi);
            }
            let ghost t0 = orig[gi];
            let n = new_rows.len();
            // Scan for the least unused surrogate key bound.
            let rows_ref = &self.tables[i].rows;
            let mut base: u128 = 0;
            let mut maxed: bool = false;
            let mut s: usize = rows_ref.len();
            proof {
                assert(rows_vw(rows_ref@).skip(s as int) =~= Seq::<RowEntryV>::empty());
            }
            while s > 0
                invariant
                    s <= rows_ref@.len(),
                    rows_vw(rows_ref@) == t0.rows,
                    forall|p: int| 0 <= p < t0.rows.len() ==> row_entry_valid(
                        #[trigger] t0.rows[p],
                    ),
                    !maxed ==> base == uuid_ub(t0.rows.skip(s as int)),
                    maxed ==> uuid_ub(t0.rows.skip(s as int))
                        == 0x100000000000000000000000000000000,
                decreases s,
            {
                s -= 1;
                let ghost before = t0.rows.skip(s + 1);
                match &rows_ref[s].key {
                    Key::Uuid(x) => {
                        if *x == u128::MAX {
                            maxed = true;
                        } else if *x + 1 > base {
                            base = *x + 1;
                        }
                    },
                    _ => {},
                }
                proof {
                    let after = t0.rows.skip(s as int);
                    assert(after.subrange(1, after.len() as int) =~= before);
                    assert(after[0] == t0.rows[s as int]);
                    assert(t0.rows[s as int] == rows_vw(rows_ref@)[s as int]);
                }
            }
            proof {
                assert(t0.rows.skip(0) =~= t0.rows);
            }
            if n > 0 && (maxed || base > u128::MAX - ((n - 1) as u128)) {
                return Err(SanakirjaError::KeyOverflow);
            }
            let ghost gbase = uuid_ub(t0.rows);
            proof {
                if n > 0 {
                    assert(!maxed);
                    assert(base == gbase);
                }
            }
            let mut t = self.tables.remove(i);
            proof {
                assert(self@.len() == orig.remove(gi).len());
                assert forall|j: int| 0 <= j < self@.len() implies self@[j] == orig.remove(gi)[j] by {
                    if j < gi {
                        assert(self.tables@[j] == old(self).tables@[j]);
                    } else {
                        assert(self.tables@[j] == old(self).tables@[j + 1]);
                    }
                }
                assert(self@ =~= orig.remove(gi));
                assert(t@ == orig[gi]);
            }
            let mut j: usize = 0;
            while j < n
                invariant
                    j <= n,
                    n == new_rows@.len(),
                    gbase == uuid_ub(t0.rows),
                    n > 0 ==> !maxed && base == gbase,
                    gbase + n <= 0x100000000000000000000000000000000,
                    n > 0 ==> base <= u128::MAX - ((n - 1) as u128),
                    rows_sorted(rows_vw(t.rows@)),
                    forall|p: int| 0 <= p < t.rows@.len() ==> row_entry_valid(
                        #[trigger] rows_vw(t.rows@)[p],
                    ),
                    t.rows@.len() == t0.rows.len() + j,
                    t@.schema == t0.schema,
                    forall|k: KeyV|
                        #[trigger] find_row(rows_vw(t.rows@), k) == appended_find(
                            t0.rows,
                            crate::types::names_vw(new_rows@),
                            gbase,
                            j as int,
                            k,
                        ),
                decreases n - j,
            {
                let key_val: u128 = base + (j as u128);
                let e = RowEntry { key: Key::Uuid(key_val), row: clone_bytes(&new_rows[j]) };
                proof {
                    lemma_uuid_fresh(t0.rows, gbase + j);
                    assert(find_row(rows_vw(t.rows@), KeyV::Uuid(gbase + j)) == find_row(
                        t0.rows,
                        KeyV::Uuid(gbase + j),
                    ));
                }
                let grew = upsert_row(&mut t.rows, e);
                proof {
                    assert(grew);
                    assert forall|k: KeyV| true implies #[trigger] find_row(rows_vw(t.rows@), k)
                        == appended_find(
                        t0.rows,
                        crate::types::names_vw(new_rows@),
                        gbase,
                        j + 1,
                        k,
                    ) by {
                        match k {
                            KeyV::Uuid(x) => {
                                if x == gbase + j {
                                    assert(crate::types::names_vw(new_rows@)[j as int]
                                        == new_rows@[j as int]@);
                                }
                            },
                            _ => {},
                        }
                    }
                }
                j += 1;
            }
            self.write_back(i, t, Ghost(orig));
            Ok(())
        } else {
            proof {
                self.lemma_absent_after_search(name@, gi);
            }
            Err(SanakirjaError::TableDoesNotExist)
        }
    }
}

/// Adjacent order on table names extends to the whole list.
proof fn lemma_name_chain(ts: Seq<TableV>, i: int, j: int)
    requires
        forall|p: int|
            0 <= p && p + 1 < ts.len() ==> lex_lt(
                #[trigger] ts[p].schema.name,
                ts[p + 1].schema.name,
            ),
        0 <= i < j < ts.len(),
    ensures
        lex_lt(ts[i].schema.name, ts[j].schema.name),
    decreases j - i,
{
    if j > i + 1 {
        lemma_name_chain(ts, i, j - 1);
        lemma_lex_trans(ts[i].schema.name, ts[j - 1].schema.name, ts[j].schema.name);
    }
}

/// Adjacent order on row keys extends to the whole list.
proof fn lemma_key_chain(rows: Seq<RowEntryV>, i: int, j: int)
    requires
        forall|p: int| 0 <= p && p + 1 < rows.len() ==> key_lt(#[trigger] rows[p].key, rows[p + 1].key),
        0 <= i < j < rows.len(),
    ensures
        key_lt(rows[i].key, rows[j].key),
    decreases j - i,
{
    if j > i + 1 {
        lemma_key_chain(rows, i, j - 1);
        lemma_key_trans(rows[i].key, rows[j - 1].key, rows[j].key);
    }
}

/// Decides whether the tables stand strictly in name order.
#[verifier::rlimit(50)]
fn tables_sorted_exec(ts: &Vec<Table>) -> (r: bool)
    ensures
        r == tables_sorted(tables_vw(ts@)),
{
    let vw_len = ts.len();
    if vw_len == 0 {
        return true;
    }
    let mut i: usize = 0;
    while i + 1 < vw_len
        invariant
            vw_len == ts@.len(),
            0 < vw_len,
            i < vw_len,
            forall|p: int|
                0 <= p < i ==> lex_lt(
                    #[trigger] tables_vw(ts@)[p].schema.name,
                    tables_vw(ts@)[p + 1].schema.name,
                ),
        decreases vw_len - i,
    {
        if !bytes_lt(&ts[i].schema.table_name, &ts[i + 1].schema.table_name) {
            proof {
                assert(!lex_lt(
                    tables_vw(ts@)[i as int].schema.name,
                    tables_vw(ts@)[i + 1].schema.name,
                ));
            }
            return false;
        }
        proof {
            assert(lex_lt(
                tables_vw(ts@)[i as int].schema.name,
                tables_vw(ts@)[i + 1].schema.name,
            ));
        }
        i += 1;
    }
    proof {
        let vw = tables_vw(ts@);
        assert forall|a: int, b: int| 0 <= a < b < vw.len() implies #[trigger] lex_lt(
            vw[a].schema.name,
            vw[b].schema.name,
        ) by {
            lemma_name_chain(vw, a, b);
        }
    }
    true
}

/// Decides whether the rows stand strictly in key order.
#[verifier::rlimit(50)]
fn rows_sorted_exec(rows: &Vec<RowEntry>) -> (r: bool)
    ensures
        r == rows_sorted(rows_vw(rows@)),
{
    let vw_len = rows.len();
    if vw_len == 0 {
        return true;
    }
    let mut i: usize = 0;
    while i + 1 < vw_len
        invariant
            vw_len == rows@.len(),
            0 < vw_len,
            i < vw_len,
            forall|p: int|
                0 <= p < i ==> key_lt(
                    #[trigger] rows_vw(rows@)[p].key,
                    rows_vw(rows@)[p + 1].key,
                ),
        decreases vw_len - i,
    {
        if !key_lt_exec(&rows[i].key, &rows[i + 1].key) {
            proof {
                assert(!key_lt(rows_vw(rows@)[i as int].key, rows_vw(rows@)[i + 1].key));
            }
            return false;
        }
        proof {
            assert(key_lt(rows_vw(rows@)[i as int].key, rows_vw(rows@)[i + 1].key));
        }
        i += 1;
    }
    proof {
        let vw = rows_vw(rows@);
        assert forall|a: int, b: int| 0 <= a < b < vw.len() implies #[trigger] key_lt(
            vw[a].key,
            vw[b].key,
        ) by {
            lemma_key_chain(vw, a, b);
        }
    }
    true
}

/// Decides whether every table's rows stand strictly in key order.
fn rows_all_sorted_exec(ts: &Vec<Table>) -> (r: bool)
    ensures
        r == (forall|i: int|
            0 <= i < tables_vw(ts@).len() ==> rows_sorted(#[trigger] tables_vw(ts@)[i].rows)),
{
    let mut i: usize = 0;
    while i < ts.len()
        invariant
            i <= ts@.len(),
            forall|p: int| 0 <= p < i ==> rows_sorted(#[trigger] tables_vw(ts@)[p].rows),
        decreases ts@.len() - i,
    {
        if !rows_sorted_exec(&ts[i].rows) {
            proof {
                assert(!rows_sorted(tables_vw(ts@)[i as int].rows));
            }
            return false;
        }
        proof {
            assert(rows_sorted(tables_vw(ts@)[i as int].rows));
        }
        i += 1;
    }
    true
}

/// The process-wide handle to one open store: the root directory (the
/// version marker and the schema index root) plus the single-writer
/// latch.
#[derive(Debug)]
pub struct Pristine {
    pub version_slot: Option<u64>,
    pub store: Option<StoreState>,
    pub writer_active: bool,
}

/// The invariant of an open store handle: the version slot and the
/// schema root are set together, the version always matches, and the
/// reachable state is well-formed.
pub open spec fn pristine_wf(p: Pristine) -> bool {
    &&& (p.version_slot is Some <==> p.store is Some)
    &&& (p.version_slot matches Some(v) ==> v == VERSION)
    &&& (p.store matches Some(st) ==> state_wf(st@))
}

/// A snapshot of the store's reachable state. A read transaction only
/// observes; a mutable transaction stages changes that become visible
/// all at once at commit.
#[derive(Debug)]
pub struct GenericTxn<const WRITABLE: bool> {
    pub store: StoreState,
}

/// A read transaction.
pub type Txn = GenericTxn<false>;

/// The single mutable transaction.
pub type MutTxn = GenericTxn<true>;

impl<const WRITABLE: bool> View for GenericTxn<WRITABLE> {
    type V = Seq<TableV>;

    open spec fn view(&self) -> Seq<TableV> {
        self.store@
    }
}

/// Decodes and checks the state section of a store image: everything
/// after the version cell, which must decode fully, exactly, and in
/// order.
#[verifier::rlimit(100)]
#[verifier::spinoff_prover]
fn decode_state_checked(bytes: &Vec<u8>, n: usize) -> (r: Option<StoreState>)
    requires
        n == bytes@.len(),
        n > 8,
    ensures
        r matches Some(st) ==> state_wf(st@),
        r matches Some(st) ==> bytes@.subrange(8, n as int) == enc_state_spec(st@),
        forall|ts: Seq<TableV>|
            state_wf(ts) && 8 + enc_state_spec(ts).len() == n && bytes@.subrange(8, n as int)
                == #[trigger] enc_state_spec(ts) ==> (r matches Some(st) && st@ == ts),
{
    let r: Option<StoreState> = match dec_state(bytes, 8) {
        None => None,
        Some((tables, p)) => {
            if p != n {
                None
            } else if !tables_sorted_exec(&tables) {
                None
            } else if !rows_all_sorted_exec(&tables) {
                None
            } else {
                Some(StoreState { tables })
            }
        },
    };
    r
}

/// The shape of a saved store image: the version cell, then the
/// serialized state.
#[verifier::rlimit(100)]
#[verifier::spinoff_prover]
proof fn lemma_image_shape(bytes: Seq<u8>, ts: Seq<TableV>)
    requires
        bytes == u64_le_bytes(VERSION) + enc_state_spec(ts),
    ensures
        bytes.len() == 8 + enc_state_spec(ts).len(),
        bytes.len() > 8,
        le_val(bytes.subrange(0, 8)) == VERSION,
        bytes.subrange(8, bytes.len() as int) == enc_state_spec(ts),
{
    crate::codec::lemma_split_concat(bytes, 0, u64_le_bytes(VERSION), enc_state_spec(ts));
    lemma_le_round_trip(VERSION);
    assert(bytes.subrange(0, bytes.len() as int) =~= bytes);
    assert(bytes.subrange(8, bytes.len() as int) == enc_state_spec(ts));
}

impl Pristine {
    /// A handle to a freshly created store file: both root slots unset.
    pub fn new() -> (r: Pristine)
        ensures
            r.version_slot is None,
            r.store is None,
            !r.writer_active,
            pristine_wf(r),
    {
        Pristine { version_slot: None, store: None, writer_active: false }
    }

    /// Opens a store from its file image. An empty file is a fresh
    /// store; a non-matching version marker fails with the version
    /// condition and the file is never partially interpreted; a valid
    /// marker with no schema root is the corruption condition; records
    /// that do not decode, trailing bytes, or an out-of-order index fail
    /// with the serialization condition. Reading back a saved image
    /// yields exactly the saved state.
    #[verifier::rlimit(100)]
    #[verifier::spinoff_prover]
    pub fn open_from_bytes(bytes: &Vec<u8>) -> (r: Result<Pristine, SanakirjaError>)
        ensures
            r matches Ok(p) ==> pristine_wf(p) && !p.writer_active,
            bytes@.len() == 0 ==> (r matches Ok(p) && p.version_slot is None && p.store is None),
            0 < bytes@.len() < 8 ==> r == Err::<Pristine, SanakirjaError>(
                SanakirjaError::PristineCorrupted,
            ),
            bytes@.len() >= 8 && le_val(bytes@.subrange(0, 8)) != VERSION ==> r == Err::<
                Pristine,
                SanakirjaError,
            >(SanakirjaError::Version),
            bytes@.len() == 8 && le_val(bytes@.subrange(0, 8)) == VERSION ==> r == Err::<
                Pristine,
                SanakirjaError,
            >(SanakirjaError::PristineCorrupted),
            forall|ts: Seq<TableV>|
                state_wf(ts) && bytes@ == u64_le_bytes(VERSION) + #[trigger] enc_state_spec(ts)
                    ==> (r matches Ok(p) && p.version_slot == Some(VERSION) && (
                    p.store matches Some(st) && st@ == ts)),
            r matches Ok(p) ==> (p.store matches Some(st) ==> bytes@ == u64_le_bytes(VERSION)
                + enc_state_spec(st@)),
            r matches Ok(p) && p.store is None ==> bytes@.len() == 0,
    {
        let n = bytes.len();
        let r: Result<Pristine, SanakirjaError> = if n == 0 {
            Ok(Pristine { version_slot: None, store: None, writer_active: false })
        } else if n < 8 {
            Err(SanakirjaError::PristineCorrupted)
        } else {
            let v = read_u64_le(bytes, 0);
            if v != VERSION {
                Err(SanakirjaError::Version)
            } else if n == 8 {
                Err(SanakirjaError::PristineCorrupted)
            } else {
                match decode_state_checked(bytes, n) {
                    None => Err(SanakirjaError::Serialization),
                    Some(st) => Ok(
                        Pristine {
                            version_slot: Some(VERSION),
                            store: Some(st),
                            writer_active: false,
                        },
                    ),
                }
            }
        };
        proof {
            match &r {
                Ok(p) => {
                    match &p.store {
                        Some(st) => {
                            crate::l64::lemma_le_bytes_identity(bytes@.subrange(0, 8));
                            assert(bytes@ =~= bytes@.subrange(0, 8) + bytes@.subrange(
                                8,
                                bytes@.len() as int,
                            ));
                        },
                        None => {},
                    }
                },
                Err(_) => {},
            }
            assert forall|ts: Seq<TableV>|
                state_wf(ts) && bytes@ == u64_le_bytes(VERSION) + #[trigger] enc_state_spec(ts)
                    implies (r matches Ok(p) && p.version_slot == Some(VERSION) && (
                p.store matches Some(st) && st@ == ts)) by {
                lemma_image_shape(bytes@, ts);
            }
        }
        r
    }

    /// The file image of this store: the version marker cell, then the
    /// serialized schema index and data trees; empty for a fresh store.
    pub fn save_to_bytes(&self) -> (r: Vec<u8>)
        requires
            pristine_wf(*self),
        ensures
            self.store is None ==> r@ =~= Seq::<u8>::empty(),
            self.store matches Some(st) ==> r@ == u64_le_bytes(VERSION) + enc_state_spec(st@),
    {
        match &self.store {
            None => Vec::new(),
            Some(st) => {
                let mut out: Vec<u8> = Vec::new();
                push_u64_le(&mut out, VERSION);
                enc_state(&mut out, &st.tables);
                out
            },
        }
    }

    /// Opens a read transaction: a consistent snapshot of the committed
    /// state. On a fresh file there is nothing to read; an invalid
    /// version marker is never interpreted.
    pub fn txn_begin(&self) -> (r: Result<Txn, SanakirjaError>)
        requires
            pristine_wf(*self),
        ensures
            self.version_slot is None ==> r == Err::<Txn, SanakirjaError>(
                SanakirjaError::PristineCorrupted,
            ),
            (self.version_slot matches Some(v) && v != VERSION) ==> r == Err::<
                Txn,
                SanakirjaError,
            >(SanakirjaError::Version),
            self.version_slot == Some(VERSION) && self.store is None ==> r == Err::<
                Txn,
                SanakirjaError,
            >(SanakirjaError::PristineCorrupted),
            self.version_slot == Some(VERSION) ==> (self.store matches Some(st) ==> (
            r matches Ok(t) && t@ == st@ && state_wf(t@))),
    {
        match &self.version_slot {
            None => Err(SanakirjaError::PristineCorrupted),
            Some(v) => {
                if *v != VERSION {
                    Err(SanakirjaError::Version)
                } else {
                    match &self.store {
                        None => Err(SanakirjaError::PristineCorrupted),
                        Some(st) => Ok(GenericTxn { store: st.clone() }),
                    }
                }
            },
        }
    }

    /// Opens the single mutable transaction, staging a copy of the
    /// committed state (an empty index on a fresh file). While a writer
    /// is active, a second writer fails with the lock condition; the
    /// environment itself is untouched until commit.
    pub fn mut_txn_begin(&mut self) -> (r: Result<MutTxn, SanakirjaError>)
        requires
            pristine_wf(*old(self)),
        ensures
            pristine_wf(*final(self)),
            final(self).version_slot == old(self).version_slot,
            final(self).store == old(self).store,
            old(self).writer_active ==> r == Err::<MutTxn, SanakirjaError>(
                SanakirjaError::PristineLocked,
            ) && final(self).writer_active,
            !old(self).writer_active ==> (r matches Ok(t) && state_wf(t@)
                && final(self).writer_active && t@ == (match old(self).store {
                Some(st) => st@,
                None => Seq::<TableV>::empty(),
            })),
    {
        if self.writer_active {
            return Err(SanakirjaError::PristineLocked);
        }
        self.writer_active = true;
        match &self.store {
            None => {
                let st = StoreState::new();
                Ok(GenericTxn { store: st })
            },
            Some(st) => Ok(GenericTxn { store: st.clone() }),
        }
    }
}

impl<const WRITABLE: bool> GenericTxn<WRITABLE> {
    /// Every schema in the snapshot, in table-name order.
    pub fn fetch_all_schemas(&self) -> (r: Vec<Schema>)
        ensures
            r@.len() == self@.len(),
            forall|i: int| 0 <= i < r@.len() ==> #[trigger] r@[i]@ == self@[i].schema,
    {
        self.store.fetch_all_schemas()
    }

    /// The schema stored under `name` in the snapshot, if any.
    pub fn fetch_schema(&self, name: &Vec<u8>) -> (r: Option<Schema>)
        requires
            state_wf(self@),
        ensures
            match find_table(self@, name@) {
                Some(t) => r matches Some(s) && s@ == t.schema,
                None => r is None,
            },
    {
        self.store.fetch_schema(name)
    }

    /// The row stored under `key` in table `name`, if any.
    pub fn fetch_data(&self, name: &Vec<u8>, key: &Key) -> (r: Option<Vec<u8>>)
        requires
            state_wf(self@),
        ensures
            match find_table(self@, name@) {
                Some(t) => match find_row(t.rows, key@) {
                    Some(row) => r matches Some(v) && v@ == row,
                    None => r is None,
                },
                None => r is None,
            },
    {
        self.store.fetch_data(name, key)
    }

    /// Every row of table `name` in the snapshot, in key order; empty if
    /// the table is absent. A fresh call re-walks the same snapshot, so
    /// repeated scans agree.
    pub fn scan_data(&self, name: &Vec<u8>) -> (r: Vec<RowEntry>)
        requires
            state_wf(self@),
        ensures
            match find_table(self@, name@) {
                Some(t) => rows_vw(r@) == t.rows && rows_sorted(rows_vw(r@)),
                None => r@.len() == 0,
            },
    {
        self.store.scan_data(name)
    }
}

impl GenericTxn<true> {
    /// Stages a schema insertion; a duplicate name is an error.
    pub fn insert_schema(&mut self, schema: Schema) -> (r: Result<(), SanakirjaError>)
        requires
            state_wf(old(self)@),
        ensures
            state_wf(final(self)@),
            match find_table(old(self)@, schema@.name) {
                Some(_) => {
                    &&& r == Err::<(), SanakirjaError>(SanakirjaError::SchemaExists)
                    &&& final(self)@ == old(self)@
                },
                None => {
                    &&& r is Ok
                    &&& final(self)@.len() == old(self)@.len() + 1
                    &&& find_table(final(self)@, schema@.name) == Some(
                        TableV { schema: schema@, rows: Seq::empty() },
                    )
                    &&& forall|n: Seq<u8>|
                        n != schema@.name ==> #[trigger] find_table(final(self)@, n) == find_table(
                            old(self)@,
                            n,
                        )
                },
            },
    {
        self.store.insert_schema(schema)
    }

    /// Stages removal of a schema and its data table; idempotent.
    pub fn delete_schema(&mut self, name: &Vec<u8>)
        requires
            state_wf(old(self)@),
        ensures
            state_wf(final(self)@),
            find_table(final(self)@, name@) == None::<TableV>,
            forall|n: Seq<u8>|
                n != name@ ==> #[trigger] find_table(final(self)@, n) == find_table(
                    old(self)@,
                    n,
                ),
            final(self)@.len() == old(self)@.len() - (if find_table(old(self)@, name@) is Some {
                1int
            } else {
                0int
            }),
    {
        self.store.delete_schema(name)
    }

    /// Stages keyed upserts into table `name`.
    pub fn insert_data(&mut self, name: &Vec<u8>, new_rows: Vec<RowEntry>) -> (r: Result<
        (),
        SanakirjaError,
    >)
        requires
            state_wf(old(self)@),
        ensures
            state_wf(final(self)@),
            match find_table(old(self)@, name@) {
                None => {
                    &&& r == Err::<(), SanakirjaError>(SanakirjaError::TableDoesNotExist)
                    &&& final(self)@ == old(self)@
                },
                Some(t) => {
                    &&& r is Ok
                    &&& find_table(final(self)@, name@) matches Some(t2)
                    &&& (find_table(final(self)@, name@) matches Some(t2) ==> t2.schema == t.schema
                        && t2.rows.len() <= t.rows.len() + new_rows@.len() && (forall|k: KeyV|
                        #[trigger] find_row(t2.rows, k) == upserted(
                            t.rows,
                            rows_vw(new_rows@),
                            k,
                        )))
                    &&& forall|n2: Seq<u8>|
                        n2 != name@ ==> #[trigger] find_table(final(self)@, n2) == find_table(
                            old(self)@,
                            n2,
                        )
                },
            },
    {
        self.store.insert_data(name, new_rows)
    }

    /// Stages removal of the given keys from table `name`.
    pub fn delete_data(&mut self, name: &Vec<u8>, keys: Vec<Key>) -> (r: Result<
        (),
        SanakirjaError,
    >)
        requires
            state_wf(old(self)@),
        ensures
            state_wf(final(self)@),
            match find_table(old(self)@, name@) {
                None => {
                    &&& r == Err::<(), SanakirjaError>(SanakirjaError::TableDoesNotExist)
                    &&& final(self)@ == old(self)@
                },
                Some(t) => {
                    &&& r is Ok
                    &&& find_table(final(self)@, name@) matches Some(t2)
                    &&& (find_table(final(self)@, name@) matches Some(t2) ==> t2.schema == t.schema
                        && t2.rows.len() <= t.rows.len() && (forall|k: KeyV|
                        #[trigger] find_row(t2.rows, k) == if key_in(keys_vw(keys@), k) {
                            None::<Seq<u8>>
                        } else {
                            find_row(t.rows, k)
                        }))
                    &&& forall|n2: Seq<u8>|
                        n2 != name@ ==> #[trigger] find_table(final(self)@, n2) == find_table(
                            old(self)@,
                            n2,
                        )
                },
            },
    {
        self.store.delete_data(name, keys)
    }

    /// Stages appends to table `name` under fresh surrogate keys.
    pub fn append_data(&mut self, name: &Vec<u8>, new_rows: Vec<Vec<u8>>) -> (r: Result<
        (),
        SanakirjaError,
    >)
        requires
            state_wf(old(self)@),
        ensures
            state_wf(final(self)@),
            match find_table(old(self)@, name@) {
                None => {
                    &&& r == Err::<(), SanakirjaError>(SanakirjaError::TableDoesNotExist)
                    &&& final(self)@ == old(self)@
                },
                Some(t) => {
                    if uuid_ub(t.rows) + new_rows@.len() > 0x100000000000000000000000000000000 {
                        &&& r == Err::<(), SanakirjaError>(SanakirjaError::KeyOverflow)
                        &&& final(self)@ == old(self)@
                    } else {
                        &&& r is Ok
                        &&& find_table(final(self)@, name@) matches Some(t2)
                        &&& (find_table(final(self)@, name@) matches Some(t2) ==> t2.schema
                            == t.schema && t2.rows.len() == t.rows.len() + new_rows@.len() && (
                        forall|k: KeyV|
                            #[trigger] find_row(t2.rows, k) == appended_find(
                                t.rows,
                                crate::types::names_vw(new_rows@),
                                uuid_ub(t.rows),
                                new_rows@.len() as int,
                                k,
                            )))
                        &&& forall|n2: Seq<u8>|
                            n2 != name@ ==> #[trigger] find_table(final(self)@, n2) == find_table(
                                old(self)@,
                                n2,
                            )
                    }
                },
            },
    {
        self.store.append_data(name, new_rows)
    }

    /// Commits: atomically replaces the root pointers with the staged
    /// state. This is the only point at which the staged writes become
    /// observable; the version marker is written here on a fresh file.
    pub fn commit(self, env: &mut Pristine)
        requires
            pristine_wf(*old(env)),
            state_wf(self@),
            old(env).writer_active,
        ensures
            pristine_wf(*final(env)),
            final(env).version_slot == Some(VERSION),
            final(env).store matches Some(st) && st@ == self@,
            !final(env).writer_active,
    {
        env.version_slot = Some(VERSION);
        env.store = Some(self.store);
        env.writer_active = false;
    }

    /// Aborts: discards the staged state with zero observable effect on
    /// the environment, releasing the writer latch.
    pub fn abort(self, env: &mut Pristine)
        ensures
            final(env).version_slot == old(env).version_slot,
            final(env).store == old(env).store,
            !final(env).writer_active,
    {
        env.writer_active = false;
    }
}
} // verus!
