//! The binary record layout: an explicit, endianness-specified codec for
//! schemas, keys and rows. Variable-length content is length-prefixed;
//! every numeric field is a little-endian eight-byte cell, so pages can be
//! copied between machines without pointer fixup.

use vstd::prelude::*;

use crate::l64::{le_val, lemma_le_round_trip, push_u64_le, read_u64_le, u64_le_bytes, L64};
use crate::types::{
    bytes_eq, clone_bytes, key_lt, key_lt_exec, lex_lt, rows_vw, tables_vw, Key, KeyV, RowEntry,
    RowEntryV, Schema, SchemaV, Table, TableV,
};

verus! {

/// The unsigned 64-bit image of a signed key value (two's complement).
pub open spec fn i64_bits(x: int) -> u64 {
    (if x >= 0 {
        x
    } else {
        x + 0x10000000000000000
    }) as u64
}

/// The low eight-byte cell of an unsigned 128-bit key value.
pub open spec fn u128_lo(x: int) -> u64 {
    (x % 0x10000000000000000) as u64
}

/// The high eight-byte cell of an unsigned 128-bit key value.
pub open spec fn u128_hi(x: int) -> u64 {
    (x / 0x10000000000000000) as u64
}

/// A key value that an executable `Key` can hold.
pub open spec fn key_valid(k: KeyV) -> bool {
    match k {
        KeyV::I64(x) => -0x8000000000000000 <= x < 0x8000000000000000,
        KeyV::Uuid(x) => 0 <= x < 0x100000000000000000000000000000000,
        KeyV::Bytes(b) => b.len() < 0x10000000000000000,
    }
}

/// A row entry whose parts fit the length-prefixed layout.
pub open spec fn row_entry_valid(e: RowEntryV) -> bool {
    key_valid(e.key) && e.row.len() < 0x10000000000000000
}

/// A schema descriptor whose parts fit the length-prefixed layout.
pub open spec fn schema_valid(s: SchemaV) -> bool {
    s.name.len() < 0x10000000000000000 && s.payload.len() < 0x10000000000000000
}

/// A table whose parts fit the length-prefixed layout.
pub open spec fn table_valid(t: TableV) -> bool {
    &&& schema_valid(t.schema)
    &&& t.rows.len() < 0x10000000000000000
    &&& forall|i: int| 0 <= i < t.rows.len() ==> row_entry_valid(#[trigger] t.rows[i])
}

/// A table list that fits the length-prefixed layout.
pub open spec fn tables_valid(ts: Seq<TableV>) -> bool {
    &&& ts.len() < 0x10000000000000000
    &&& forall|i: int| 0 <= i < ts.len() ==> table_valid(#[trigger] ts[i])
}

/// The fixed-size schema descriptor cell: the lengths of the record's
/// two variable-length parts (the table name and the serialized column
/// payload), each held as an eight-byte little-endian cell.
#[derive(Clone, Copy, Debug, PartialEq, Eq, Structural)]
pub struct SerializedSchema {
    pub name: L64,
    pub schema: L64,
}

impl SerializedSchema {
    /// The descriptor cell of a schema record.
    pub fn of_schema(s: &Schema) -> (r: SerializedSchema)
        ensures
            r.name.0 == s@.name.len(),
            r.schema.0 == s@.payload.len(),
    {
        SerializedSchema { name: L64(s.table_name.len() as u64), schema: L64(s.payload.len() as u64) }
    }
}

/// A length-prefixed byte string: an eight-byte cell, then the bytes.
pub open spec fn enc_bytes_spec(b: Seq<u8>) -> Seq<u8> {
    u64_le_bytes(b.len() as u64) + b
}

/// A serialized key: a one-byte tag, then the value's cells.
pub open spec fn enc_key_spec(k: KeyV) -> Seq<u8> {
    match k {
        KeyV::I64(x) => seq![0u8] + u64_le_bytes(i64_bits(x)),
        KeyV::Uuid(x) => seq![1u8] + u64_le_bytes(u128_lo(x)) + u64_le_bytes(u128_hi(x)),
        KeyV::Bytes(b) => seq![2u8] + enc_bytes_spec(b),
    }
}

/// A serialized row entry: its key, then its row bytes.
pub open spec fn enc_row_spec(e: RowEntryV) -> Seq<u8> {
    enc_key_spec(e.key) + enc_bytes_spec(e.row)
}

/// The concatenation of `f` applied to each element of `s`, in order.
pub open spec fn concat_map<T>(s: Seq<T>, f: spec_fn(T) -> Seq<u8>) -> Seq<u8>
    decreases s.len(),
{
    if s.len() == 0 {
        Seq::empty()
    } else {
        f(s[0]) + concat_map(s.subrange(1, s.len() as int), f)
    }
}

/// Appending one element extends the concatenation at its end.
pub proof fn lemma_concat_map_snoc<T>(s: Seq<T>, e: T, f: spec_fn(T) -> Seq<u8>)
    ensures
        concat_map(s.push(e), f) == concat_map(s, f) + f(e),
    decreases s.len(),
{
    let p = s.push(e);
    if s.len() == 0 {
        assert(p.subrange(1, p.len() as int) =~= Seq::<T>::empty());
        assert(p[0] == e);
        assert(concat_map(Seq::<T>::empty(), f) == Seq::<u8>::empty());
        assert(concat_map(p.subrange(1, p.len() as int), f) == Seq::<u8>::empty());
        assert(concat_map(p, f) == f(e) + Seq::<u8>::empty());
        assert(f(e) + Seq::<u8>::empty() =~= f(e));
        assert(Seq::<u8>::empty() + f(e) =~= f(e));
        assert(concat_map(s, f) == Seq::<u8>::empty());
    } else {
        let tail = s.subrange(1, s.len() as int);
        assert(p.subrange(1, p.len() as int) =~= tail.push(e));
        lemma_concat_map_snoc(tail, e, f);
        assert(p[0] == s[0]);
        assert(concat_map(p, f) == f(s[0]) + (concat_map(tail, f) + f(e)));
        vstd::seq_lib::lemma_concat_associative(f(s[0]), concat_map(tail, f), f(e));
        assert(concat_map(s, f) == f(s[0]) + concat_map(tail, f));
    }
}

/// The concatenated serialization of a row sequence.
pub open spec fn enc_rows_spec(rows: Seq<RowEntryV>) -> Seq<u8> {
    concat_map(rows, |e: RowEntryV| enc_row_spec(e))
}

/// A serialized schema descriptor: name, primary-key flag, payload.
pub open spec fn enc_schema_spec(s: SchemaV) -> Seq<u8> {
    enc_bytes_spec(s.name) + seq![
        if s.has_primary_key {
            1u8
        } else {
            0u8
        },
    ] + enc_bytes_spec(s.payload)
}

/// A serialized table: its schema, a row count cell, then its rows.
pub open spec fn enc_table_spec(t: TableV) -> Seq<u8> {
    enc_schema_spec(t.schema) + u64_le_bytes(t.rows.len() as u64) + enc_rows_spec(t.rows)
}

/// The concatenated serialization of a table list.
pub open spec fn enc_tables_spec(ts: Seq<TableV>) -> Seq<u8> {
    concat_map(ts, |t: TableV| enc_table_spec(t))
}

/// The serialized schema index and data trees: a table count cell, then
/// the tables in name order.
pub open spec fn enc_state_spec(ts: Seq<TableV>) -> Seq<u8> {
    u64_le_bytes(ts.len() as u64) + enc_tables_spec(ts)
}

/// Appending one row extends the serialization at its end.
pub proof fn lemma_enc_rows_snoc(rows: Seq<RowEntryV>, e: RowEntryV)
    ensures
        enc_rows_spec(rows.push(e)) == enc_rows_spec(rows) + enc_row_spec(e),
{
    lemma_concat_map_snoc(rows, e, |x: RowEntryV| enc_row_spec(x));
}

/// Appending one table extends the serialization at its end.
pub proof fn lemma_enc_tables_snoc(ts: Seq<TableV>, t: TableV)
    ensures
        enc_tables_spec(ts.push(t)) == enc_tables_spec(ts) + enc_table_spec(t),
{
    lemma_concat_map_snoc(ts, t, |x: TableV| enc_table_spec(x));
}

/// A non-empty table list's serialization starts with its first table.
pub proof fn lemma_enc_tables_cons(w: Seq<TableV>)
    requires
        w.len() > 0,
    ensures
        enc_tables_spec(w) == enc_table_spec(w[0]) + enc_tables_spec(
            w.subrange(1, w.len() as int),
        ),
{
}

/// Appends `b` to `out`.
pub fn push_bytes(out: &mut Vec<u8>, b: &Vec<u8>)
    ensures
        final(out)@ =~= old(out)@ + b@,
{
    let mut i: usize = 0;
    while i < b.len()
        invariant
            i <= b@.len(),
            out@ =~= old(out)@ + b@.subrange(0, i as int),
        decreases b@.len() - i,
    {
        out.push(b[i]);
        proof {
            assert(b@.subrange(0, i + 1) =~= b@.subrange(0, i as int).push(b@[i as int]));
        }
        i += 1;
    }
    proof {
        assert(b@.subrange(0, b@.len() as int) =~= b@);
    }
}

/// Appends the length-prefixed serialization of `b` to `out`.
pub fn enc_bytes(out: &mut Vec<u8>, b: &Vec<u8>)
    ensures
        final(out)@ =~= old(out)@ + enc_bytes_spec(b@),
{
    let l: u64 = b.len() as u64;
    push_u64_le(out, l);
    push_bytes(out, b);
}

/// Appends the serialization of key `k` to `out`.
pub fn enc_key(out: &mut Vec<u8>, k: &Key)
    ensures
        final(out)@ =~= old(out)@ + enc_key_spec(k@),
{
    match k {
        Key::I64(x) => {
            out.push(0u8);
            let bits: u64 = if *x >= 0 {
                *x as u64
            } else {
                ((*x as i128) + 0x10000000000000000i128) as u64
            };
            proof {
                assert(bits == i64_bits(*x as int));
            }
            push_u64_le(out, bits);
        },
        Key::Uuid(x) => {
            out.push(1u8);
            let lo: u64 = (*x % 0x10000000000000000u128) as u64;
            let hi: u64 = (*x / 0x10000000000000000u128) as u64;
            push_u64_le(out, lo);
            push_u64_le(out, hi);
        },
        Key::Bytes(b) => {
            out.push(2u8);
            enc_bytes(out, b);
        },
    }
}

/// Appends the serialization of row entry `e` to `out`.
pub fn enc_row(out: &mut Vec<u8>, e: &RowEntry)
    ensures
        final(out)@ =~= old(out)@ + enc_row_spec(e@),
{
    enc_key(out, &e.key);
    enc_bytes(out, &e.row);
}

/// Appends the serialization of all rows to `out`, in order.
pub fn enc_rows(out: &mut Vec<u8>, rows: &Vec<RowEntry>)
    ensures
        final(out)@ =~= old(out)@ + enc_rows_spec(rows_vw(rows@)),
{
    let mut i: usize = 0;
    while i < rows.len()
        invariant
            i <= rows@.len(),
            out@ =~= old(out)@ + enc_rows_spec(rows_vw(rows@).subrange(0, i as int)),
        decreases rows@.len() - i,
    {
        enc_row(out, &rows[i]);
        proof {
            let vw = rows_vw(rows@);
            assert(vw.subrange(0, i + 1) =~= vw.subrange(0, i as int).push(vw[i as int]));
            lemma_enc_rows_snoc(vw.subrange(0, i as int), vw[i as int]);
        }
        i += 1;
    }
    proof {
        assert(rows_vw(rows@).subrange(0, rows@.len() as int) =~= rows_vw(rows@));
    }
}

/// Appends the serialization of schema `s` to `out`.
pub fn enc_schema(out: &mut Vec<u8>, s: &Schema)
    ensures
        final(out)@ =~= old(out)@ + enc_schema_spec(s@),
{
    enc_bytes(out, &s.table_name);
    out.push(if s.has_primary_key {
        1u8
    } else {
        0u8
    });
    enc_bytes(out, &s.payload);
}

/// Appends the serialization of table `t` to `out`.
pub fn enc_table(out: &mut Vec<u8>, t: &Table)
    ensures
        final(out)@ =~= old(out)@ + enc_table_spec(t@),
{
    enc_schema(out, &t.schema);
    let n: u64 = t.rows.len() as u64;
    push_u64_le(out, n);
    enc_rows(out, &t.rows);
}

/// Appends the serialization of the whole table list to `out`.
pub fn enc_state(out: &mut Vec<u8>, ts: &Vec<Table>)
    ensures
        final(out)@ =~= old(out)@ + enc_state_spec(tables_vw(ts@)),
{
    let n: u64 = ts.len() as u64;
    push_u64_le(out, n);
    let mut i: usize = 0;
    while i < ts.len()
        invariant
            i <= ts@.len(),
            out@ =~= old(out)@ + u64_le_bytes(ts@.len() as u64) + enc_tables_spec(
                tables_vw(ts@).subrange(0, i as int),
            ),
        decreases ts@.len() - i,
    {
        enc_table(out, &ts[i]);
        proof {
            let vw = tables_vw(ts@);
            assert(vw.subrange(0, i + 1) =~= vw.subrange(0, i as int).push(vw[i as int]));
            lemma_enc_tables_snoc(vw.subrange(0, i as int), vw[i as int]);
        }
        i += 1;
    }
    proof {
        assert(tables_vw(ts@).subrange(0, ts@.len() as int) =~= tables_vw(ts@));
    }
}


/// A region that holds `x + y` splits into a region for `x` and one for `y`.
pub proof fn lemma_split_concat(buf: Seq<u8>, pos: int, x: Seq<u8>, y: Seq<u8>)
    requires
        0 <= pos,
        pos + x.len() + y.len() <= buf.len(),
        buf.subrange(pos, pos + x.len() + y.len()) == x + y,
    ensures
        buf.subrange(pos, pos + x.len()) == x,
        buf.subrange(pos + x.len(), pos + x.len() + y.len()) == y,
{
    let whole = buf.subrange(pos, pos + x.len() + y.len());
    assert forall|i: int| 0 <= i < x.len() implies buf.subrange(pos, pos + x.len())[i] == x[i] by {
        assert(whole[i] == (x + y)[i]);
    }
    assert(buf.subrange(pos, pos + x.len()) =~= x);
    assert forall|i: int| 0 <= i < y.len() implies buf.subrange(
        pos + x.len(),
        pos + x.len() + y.len(),
    )[i] == y[i] by {
        assert(whole[x.len() + i] == (x + y)[x.len() + i]);
    }
    assert(buf.subrange(pos + x.len(), pos + x.len() + y.len()) =~= y);
}

/// Copies `len` bytes of `buf` starting at `start`.
pub fn copy_range(buf: &Vec<u8>, start: usize, len: usize) -> (r: Vec<u8>)
    requires
        start + len <= buf@.len(),
    ensures
        r@ == buf@.subrange(start as int, start + len),
{
    let total: usize = buf.len();
    let mut r: Vec<u8> = Vec::new();
    let mut i: usize = 0;
    while i < len
        invariant
            i <= len,
            start + len <= buf@.len(),
            buf@.len() == total,
            r@ =~= buf@.subrange(start as int, start + i),
        decreases len - i,
    {
        r.push(buf[start + i]);
        proof {
            assert(buf@.subrange(start as int, start + i + 1) =~= buf@.subrange(
                start as int,
                start + i,
            ).push(buf@[start + i]));
        }
        i += 1;
    }
    r
}

/// Reads the eight-byte cell at `pos`, if the region holds one.
pub fn dec_u64(buf: &Vec<u8>, pos: usize) -> (r: Option<(u64, usize)>)
    requires
        pos <= buf@.len(),
    ensures
        match r {
            Some(q) => pos + 8 <= buf@.len() && q.0 == le_val(buf@.subrange(pos as int, pos + 8))
                && q.1 == pos + 8,
            None => pos + 8 > buf@.len(),
        },
        r matches Some(q) ==> buf@.subrange(pos as int, pos + 8) == u64_le_bytes(q.0),
{
    if buf.len() - pos >= 8 {
        proof {
            crate::l64::lemma_le_bytes_identity(buf@.subrange(pos as int, pos + 8));
        }
        Some((read_u64_le(buf, pos), pos + 8))
    } else {
        None
    }
}

/// Reads the length-prefixed byte string at `pos`, if the region holds
/// one that fits.
#[verifier::rlimit(60)]
#[verifier::spinoff_prover]
pub fn dec_bytes(buf: &Vec<u8>, pos: usize) -> (r: Option<(Vec<u8>, usize)>)
    requires
        pos <= buf@.len(),
    ensures
        r matches Some(q) ==> pos + 8 <= q.1 <= buf@.len() && q.1 == pos + 8 + q.0@.len() && q.0@
            == buf@.subrange(pos + 8, q.1 as int) && le_val(buf@.subrange(pos as int, pos + 8))
            == q.0@.len() && q.0@.len() < 0x10000000000000000,
        r matches Some(q) ==> buf@.subrange(pos as int, q.1 as int) == enc_bytes_spec(q.0@),
        forall|b: Seq<u8>|
            b.len() < 0x10000000000000000 && pos + enc_bytes_spec(b).len() <= buf@.len()
                && buf@.subrange(pos as int, pos + enc_bytes_spec(b).len()) == #[trigger] enc_bytes_spec(
                b,
            ) ==> (r matches Some(q) && q.0@ == b && q.1 == pos + enc_bytes_spec(b).len()),
{
    let r = match dec_u64(buf, pos) {
        None => None,
        Some((l, p1)) => {
            let rem = buf.len() - p1;
            if l > rem as u64 {
                None
            } else {
                let n = l as usize;
                Some((copy_range(buf, p1, n), p1 + n))
            }
        },
    };
    proof {
        match &r {
            Some(q) => {
                crate::l64::lemma_le_bytes_identity(buf@.subrange(pos as int, pos + 8));
                assert(buf@.subrange(pos as int, q.1 as int) =~= buf@.subrange(
                    pos as int,
                    pos + 8,
                ) + buf@.subrange(pos + 8, q.1 as int));
            },
            None => {},
        }
        assert forall|b: Seq<u8>|
            b.len() < 0x10000000000000000 && pos + enc_bytes_spec(b).len() <= buf@.len()
                && buf@.subrange(pos as int, pos + enc_bytes_spec(b).len()) == #[trigger] enc_bytes_spec(
                b,
            ) implies (r matches Some(q) && q.0@ == b && q.1 == pos + enc_bytes_spec(b).len()) by {
            lemma_split_concat(buf@, pos as int, u64_le_bytes(b.len() as u64), b);
            lemma_le_round_trip(b.len() as u64);
            assert(le_val(buf@.subrange(pos as int, pos + 8)) == b.len());
        }
    }
    r
}

/// The signed value denoted by an unsigned 64-bit image.
pub open spec fn i64_val(bits: u64) -> int {
    if bits < 0x8000000000000000 {
        bits as int
    } else {
        bits - 0x10000000000000000
    }
}

/// Reads the serialized key at `pos`, if the region holds one.
#[verifier::rlimit(100)]
#[verifier::spinoff_prover]
pub fn dec_key(buf: &Vec<u8>, pos: usize) -> (r: Option<(Key, usize)>)
    requires
        pos <= buf@.len(),
    ensures
        r matches Some(q) ==> pos < q.1 <= buf@.len() && key_valid(q.0@),
        r matches Some(q) ==> buf@.subrange(pos as int, q.1 as int) == enc_key_spec(q.0@),
        forall|k: KeyV|
            key_valid(k) && pos + enc_key_spec(k).len() <= buf@.len() && buf@.subrange(
                pos as int,
                pos + enc_key_spec(k).len(),
            ) == #[trigger] enc_key_spec(k) ==> (r matches Some(q) && q.0@ == k && q.1 == pos
                + enc_key_spec(k).len()),
{
    let total: usize = buf.len();
    let r: Option<(Key, usize)> = if total - pos < 1 {
        None
    } else {
        let tag = buf[pos];
        if tag == 0 {
            match dec_u64(buf, pos + 1) {
                None => None,
                Some((bits, p1)) => {
                    let x: i64 = if bits < 0x8000000000000000u64 {
                        bits as i64
                    } else {
                        ((bits as i128) - 0x10000000000000000i128) as i64
                    };
                    Some((Key::I64(x), p1))
                },
            }
        } else if tag == 1 {
            match dec_u64(buf, pos + 1) {
                None => None,
                Some((lo, p1)) => match dec_u64(buf, p1) {
                    None => None,
                    Some((hi, p2)) => {
                        let x: u128 = (hi as u128) * 0x10000000000000000u128 + (lo as u128);
                        Some((Key::Uuid(x), p2))
                    },
                },
            }
        } else if tag == 2 {
            match dec_bytes(buf, pos + 1) {
                None => None,
                Some((b, p1)) => Some((Key::Bytes(b), p1)),
            }
        } else {
            None
        }
    };
    proof {
        match &r {
            Some(q) => {
                match &q.0 {
                    Key::I64(x) => {
                        let cell = buf@.subrange(pos + 1, pos + 9);
                        crate::l64::lemma_le_bytes_identity(cell);
                        assert(i64_bits(*x as int) == (le_val(cell) as u64));
                        assert(buf@.subrange(pos as int, q.1 as int) =~= seq![0u8] + cell);
                    },
                    Key::Uuid(x) => {
                        let lo_cell = buf@.subrange(pos + 1, pos + 9);
                        let hi_cell = buf@.subrange(pos + 9, pos + 17);
                        crate::l64::lemma_le_bytes_identity(lo_cell);
                        crate::l64::lemma_le_bytes_identity(hi_cell);
                        crate::l64::lemma_le_val_bound(lo_cell);
                        vstd::arithmetic::div_mod::lemma_fundamental_div_mod_converse(
                            *x as int,
                            0x10000000000000000,
                            le_val(hi_cell),
                            le_val(lo_cell),
                        );
                        assert(u128_lo(*x as int) == (le_val(lo_cell) as u64));
                        assert(u128_hi(*x as int) == (le_val(hi_cell) as u64));
                        assert(buf@.subrange(pos as int, q.1 as int) =~= seq![1u8] + lo_cell
                            + hi_cell);
                    },
                    Key::Bytes(b) => {
                        assert(buf@.subrange(pos as int, q.1 as int) =~= seq![2u8]
                            + buf@.subrange(pos + 1, q.1 as int));
                    },
                }
            },
            None => {},
        }
        assert forall|k: KeyV|
            key_valid(k) && pos + enc_key_spec(k).len() <= buf@.len() && buf@.subrange(
                pos as int,
                pos + enc_key_spec(k).len(),
            ) == #[trigger] enc_key_spec(k) implies (r matches Some(q) && q.0@ == k && q.1 == pos
            + enc_key_spec(k).len()) by {
            let ek = enc_key_spec(k);
            assert(buf@.subrange(pos as int, pos + ek.len())[0] == buf@[pos as int]);
            match k {
                KeyV::I64(x) => {
                    let cell = u64_le_bytes(i64_bits(x));
                    assert(ek == seq![0u8] + cell);
                    assert(ek[0] == 0);
                    lemma_split_concat(buf@, pos as int, seq![0u8], cell);
                    lemma_le_round_trip(i64_bits(x));
                    assert(buf@.subrange(pos + 1, pos + 9) == cell);
                    assert(le_val(buf@.subrange(pos + 1, pos + 9)) == i64_bits(x));
                    if x >= 0 {
                        assert(i64_bits(x) == x);
                    } else {
                        assert(i64_bits(x) == x + 0x10000000000000000);
                    }
                },
                KeyV::Uuid(x) => {
                    let lo_cell = u64_le_bytes(u128_lo(x));
                    let hi_cell = u64_le_bytes(u128_hi(x));
                    assert(ek == seq![1u8] + lo_cell + hi_cell);
                    vstd::seq_lib::lemma_concat_associative(seq![1u8], lo_cell, hi_cell);
                    assert(ek == seq![1u8] + (lo_cell + hi_cell));
                    assert(ek[0] == 1);
                    lemma_split_concat(buf@, pos as int, seq![1u8], lo_cell + hi_cell);
                    lemma_split_concat(buf@, pos + 1, lo_cell, hi_cell);
                    lemma_le_round_trip(u128_lo(x));
                    lemma_le_round_trip(u128_hi(x));
                    assert(le_val(buf@.subrange(pos + 1, pos + 9)) == u128_lo(x));
                    assert(le_val(buf@.subrange(pos + 9, pos + 17)) == u128_hi(x));
                    vstd::arithmetic::div_mod::lemma_fundamental_div_mod(
                        x,
                        0x10000000000000000,
                    );
                },
                KeyV::Bytes(b) => {
                    assert(ek == seq![2u8] + enc_bytes_spec(b));
                    assert(ek[0] == 2);
                    lemma_split_concat(buf@, pos as int, seq![2u8], enc_bytes_spec(b));
                    assert(buf@.subrange(pos + 1, pos + 1 + enc_bytes_spec(b).len())
                        == enc_bytes_spec(b));
                },
            }
        }
    }
    r
}

/// Reads the serialized row entry at `pos`, if the region holds one.
#[verifier::rlimit(60)]
#[verifier::spinoff_prover]
pub fn dec_row(buf: &Vec<u8>, pos: usize) -> (r: Option<(RowEntry, usize)>)
    requires
        pos <= buf@.len(),
    ensures
        r matches Some(q) ==> pos < q.1 <= buf@.len() && row_entry_valid(q.0@),
        r matches Some(q) ==> buf@.subrange(pos as int, q.1 as int) == enc_row_spec(q.0@),
        forall|e: RowEntryV|
            row_entry_valid(e) && pos + enc_row_spec(e).len() <= buf@.len() && buf@.subrange(
                pos as int,
                pos + enc_row_spec(e).len(),
            ) == #[trigger] enc_row_spec(e) ==> (r matches Some(q) && q.0@ == e && q.1 == pos
                + enc_row_spec(e).len()),
{
    let r: Option<(RowEntry, usize)> = match dec_key(buf, pos) {
        None => None,
        Some((k, p1)) => match dec_bytes(buf, p1) {
            None => None,
            Some((row, p2)) => Some((RowEntry { key: k, row }, p2)),
        },
    };
    proof {
        match &r {
            Some(q) => {
                let kl = enc_key_spec(q.0@.key).len() as int;
                assert(buf@.subrange(pos as int, q.1 as int) =~= buf@.subrange(pos as int, pos + kl)
                    + buf@.subrange(pos + kl, q.1 as int));
            },
            None => {},
        }
        assert forall|e: RowEntryV|
            row_entry_valid(e) && pos + enc_row_spec(e).len() <= buf@.len() && buf@.subrange(
                pos as int,
                pos + enc_row_spec(e).len(),
            ) == #[trigger] enc_row_spec(e) implies (r matches Some(q) && q.0@ == e && q.1 == pos
            + enc_row_spec(e).len()) by {
            lemma_split_concat(buf@, pos as int, enc_key_spec(e.key), enc_bytes_spec(e.row));
        }
    }
    r
}

/// Reads `n` serialized row entries starting at `pos`.
#[verifier::rlimit(30)]
pub fn dec_rows(buf: &Vec<u8>, pos: usize, n: u64) -> (r: Option<(Vec<RowEntry>, usize)>)
    requires
        pos <= buf@.len(),
    ensures
        r matches Some(q) ==> pos <= q.1 <= buf@.len() && q.0@.len() == n && (forall|i: int|
            0 <= i < q.0@.len() ==> row_entry_valid(#[trigger] rows_vw(q.0@)[i])),
        r matches Some(q) ==> buf@.subrange(pos as int, q.1 as int) == enc_rows_spec(
            rows_vw(q.0@),
        ),
        forall|vs: Seq<RowEntryV>|
            vs.len() == n && (forall|i: int| 0 <= i < vs.len() ==> row_entry_valid(
                #[trigger] vs[i],
            )) && pos + enc_rows_spec(vs).len() <= buf@.len() && buf@.subrange(
                pos as int,
                pos + enc_rows_spec(vs).len(),
            ) == #[trigger] enc_rows_spec(vs) ==> (r matches Some(q) && rows_vw(q.0@) == vs && q.1
                == pos + enc_rows_spec(vs).len()),
    decreases n,
{
    if n == 0 {
        let r: Option<(Vec<RowEntry>, usize)> = Some((Vec::new(), pos));
        proof {
            assert forall|vs: Seq<RowEntryV>|
                vs.len() == n && (forall|i: int| 0 <= i < vs.len() ==> row_entry_valid(
                    #[trigger] vs[i],
                )) && pos + enc_rows_spec(vs).len() <= buf@.len() && buf@.subrange(
                    pos as int,
                    pos + enc_rows_spec(vs).len(),
                ) == #[trigger] enc_rows_spec(vs) implies (r matches Some(q) && rows_vw(q.0@) == vs
                && q.1 == pos + enc_rows_spec(vs).len()) by {
                assert(vs =~= Seq::<RowEntryV>::empty());
                assert(enc_rows_spec(vs).len() == 0);
                let q = r->Some_0;
                assert(rows_vw(q.0@) =~= vs);
            }
            let q = r->Some_0;
            assert(rows_vw(q.0@) =~= Seq::<RowEntryV>::empty());
            assert(enc_rows_spec(rows_vw(q.0@)) == Seq::<u8>::empty());
            assert(buf@.subrange(pos as int, pos as int) =~= Seq::<u8>::empty());
        }
        return r;
    }
    match dec_row(buf, pos) {
        None => {
            let r: Option<(Vec<RowEntry>, usize)> = None;
            proof {
                assert forall|vs: Seq<RowEntryV>|
                    vs.len() == n && (forall|i: int| 0 <= i < vs.len() ==> row_entry_valid(
                        #[trigger] vs[i],
                    )) && pos + enc_rows_spec(vs).len() <= buf@.len() && buf@.subrange(
                        pos as int,
                        pos + enc_rows_spec(vs).len(),
                    ) == #[trigger] enc_rows_spec(vs) implies (r matches Some(q) && rows_vw(q.0@)
                    == vs && q.1 == pos + enc_rows_spec(vs).len()) by {
                    let tail = vs.subrange(1, vs.len() as int);
                    assert(enc_rows_spec(vs) == enc_row_spec(vs[0]) + enc_rows_spec(tail));
                    lemma_split_concat(
                        buf@,
                        pos as int,
                        enc_row_spec(vs[0]),
                        enc_rows_spec(tail),
                    );
                    assert(row_entry_valid(vs[0]));
                    assert(false);
                }
            }
            r
        },
        Some((e, p1)) => {
            match dec_rows(buf, p1, n - 1) {
                None => {
                    let r: Option<(Vec<RowEntry>, usize)> = None;
                    proof {
                        assert forall|vs: Seq<RowEntryV>|
                            vs.len() == n && (forall|i: int|
                                0 <= i < vs.len() ==> row_entry_valid(#[trigger] vs[i])) && pos
                                + enc_rows_spec(vs).len() <= buf@.len() && buf@.subrange(
                                pos as int,
                                pos + enc_rows_spec(vs).len(),
                            ) == #[trigger] enc_rows_spec(vs) implies (r matches Some(q)
                            && rows_vw(q.0@) == vs && q.1 == pos + enc_rows_spec(vs).len()) by {
                            let tail = vs.subrange(1, vs.len() as int);
                            assert(enc_rows_spec(vs) == enc_row_spec(vs[0]) + enc_rows_spec(tail));
                            lemma_split_concat(
                                buf@,
                                pos as int,
                                enc_row_spec(vs[0]),
                                enc_rows_spec(tail),
                            );
                            assert(row_entry_valid(vs[0]));
                            assert(forall|i: int|
                                0 <= i < tail.len() ==> row_entry_valid(#[trigger] tail[i]));
                            assert(false);
                        }
                    }
                    r
                },
                Some((v, p2)) => {
                    let mut v2 = v;
                    v2.insert(0, e);
                    let r: Option<(Vec<RowEntry>, usize)> = Some((v2, p2));
                    proof {
                        let w = rows_vw(v2@);
                        assert(w[0] == e@);
                        assert(w.subrange(1, w.len() as int) =~= rows_vw(v@));
                        assert(enc_rows_spec(w) == enc_row_spec(e@) + enc_rows_spec(rows_vw(v@)));
                        assert(buf@.subrange(pos as int, p2 as int) =~= buf@.subrange(
                            pos as int,
                            p1 as int,
                        ) + buf@.subrange(p1 as int, p2 as int));
                        assert forall|i: int| 0 <= i < v2@.len() implies row_entry_valid(
                            #[trigger] rows_vw(v2@)[i],
                        ) by {
                            if i == 0 {
                                assert(v2@[0] == e);
                                assert(rows_vw(v2@)[0] == e@);
                            } else {
                                assert(v2@[i] == v@[i - 1]);
                                assert(rows_vw(v2@)[i] == v@[i - 1]@);
                                assert(rows_vw(v@)[i - 1] == v@[i - 1]@);
                            }
                        }
                        assert forall|vs: Seq<RowEntryV>|
                            vs.len() == n && (forall|i: int|
                                0 <= i < vs.len() ==> row_entry_valid(#[trigger] vs[i])) && pos
                                + enc_rows_spec(vs).len() <= buf@.len() && buf@.subrange(
                                pos as int,
                                pos + enc_rows_spec(vs).len(),
                            ) == #[trigger] enc_rows_spec(vs) implies (r matches Some(q)
                            && rows_vw(q.0@) == vs && q.1 == pos + enc_rows_spec(vs).len()) by {
                            let tail = vs.subrange(1, vs.len() as int);
                            assert(enc_rows_spec(vs) == enc_row_spec(vs[0]) + enc_rows_spec(tail));
                            lemma_split_concat(
                                buf@,
                                pos as int,
                                enc_row_spec(vs[0]),
                                enc_rows_spec(tail),
                            );
                            assert(row_entry_valid(vs[0]));
                            assert(forall|i: int|
                                0 <= i < tail.len() ==> row_entry_valid(#[trigger] tail[i]));
                            assert(e@ == vs[0]);
                            assert(rows_vw(v@) == tail);
                            assert forall|i: int| 0 <= i < vs.len() implies rows_vw(v2@)[i]
                                == vs[i] by {
                                if i == 0 {
                                    assert(v2@[0] == e);
                                } else {
                                    assert(v2@[i] == v@[i - 1]);
                                    assert(rows_vw(v@)[i - 1] == v@[i - 1]@);
                                    assert(tail[i - 1] == vs[i]);
                                }
                            }
                            assert(rows_vw(v2@) =~= vs);
                        }
                    }
                    r
                },
            }
        },
    }
}

/// Reads the serialized schema descriptor at `pos`, if the region holds
/// one.
#[verifier::rlimit(60)]
#[verifier::spinoff_prover]
pub fn dec_schema(buf: &Vec<u8>, pos: usize) -> (r: Option<(Schema, usize)>)
    requires
        pos <= buf@.len(),
    ensures
        r matches Some(q) ==> pos < q.1 <= buf@.len() && schema_valid(q.0@),
        forall|sv: SchemaV|
            schema_valid(sv) && pos + enc_schema_spec(sv).len() <= buf@.len() && buf@.subrange(
                pos as int,
                pos + enc_schema_spec(sv).len(),
            ) == #[trigger] enc_schema_spec(sv) ==> (r matches Some(q) && q.0@ == sv && q.1 == pos
                + enc_schema_spec(sv).len()),
{
    let total: usize = buf.len();
    let r: Option<(Schema, usize)> = match dec_bytes(buf, pos) {
        None => None,
        Some((name, p1)) => {
            if p1 >= total {
                None
            } else {
                let flag = buf[p1];
                if flag > 1 {
                    None
                } else {
                    match dec_bytes(buf, p1 + 1) {
                        None => None,
                        Some((payload, p2)) => Some(
                            (
                                Schema {
                                    table_name: name,
                                    has_primary_key: flag == 1,
                                    payload,
                                },
                                p2,
                            ),
                        ),
                    }
                }
            }
        },
    };
    proof {
        assert forall|sv: SchemaV|
            schema_valid(sv) && pos + enc_schema_spec(sv).len() <= buf@.len() && buf@.subrange(
                pos as int,
                pos + enc_schema_spec(sv).len(),
            ) == #[trigger] enc_schema_spec(sv) implies (r matches Some(q) && q.0@ == sv && q.1
            == pos + enc_schema_spec(sv).len()) by {
            let fb = seq![
                if sv.has_primary_key {
                    1u8
                } else {
                    0u8
                },
            ];
            vstd::seq_lib::lemma_concat_associative(
                enc_bytes_spec(sv.name),
                fb,
                enc_bytes_spec(sv.payload),
            );
            assert(enc_schema_spec(sv) == enc_bytes_spec(sv.name) + (fb + enc_bytes_spec(
                sv.payload,
            )));
            lemma_split_concat(
                buf@,
                pos as int,
                enc_bytes_spec(sv.name),
                fb + enc_bytes_spec(sv.payload),
            );
            lemma_split_concat(
                buf@,
                pos + enc_bytes_spec(sv.name).len(),
                fb,
                enc_bytes_spec(sv.payload),
            );
            let pf = pos + enc_bytes_spec(sv.name).len();
            assert(buf@.subrange(pf, pf + 1)[0] == buf@[pf]);
            assert(buf@[pf] == fb[0]);
        }
    }
    r
}

/// Reads the serialized table at `pos`, if the region holds one.
#[verifier::rlimit(60)]
#[verifier::spinoff_prover]
pub fn dec_table(buf: &Vec<u8>, pos: usize) -> (r: Option<(Table, usize)>)
    requires
        pos <= buf@.len(),
    ensures
        r matches Some(q) ==> pos < q.1 <= buf@.len() && table_valid(q.0@),
        forall|t: TableV|
            table_valid(t) && pos + enc_table_spec(t).len() <= buf@.len() && buf@.subrange(
                pos as int,
                pos + enc_table_spec(t).len(),
            ) == #[trigger] enc_table_spec(t) ==> (r matches Some(q) && q.0@ == t && q.1 == pos
                + enc_table_spec(t).len()),
{
    let r: Option<(Table, usize)> = match dec_schema(buf, pos) {
        None => None,
        Some((sch, p1)) => match dec_u64(buf, p1) {
            None => None,
            Some((cnt, p2)) => match dec_rows(buf, p2, cnt) {
                None => None,
                Some((rows, p3)) => Some((Table { schema: sch, rows }, p3)),
            },
        },
    };
    proof {
        match &r {
            Some(q) => {
                assert forall|i: int| 0 <= i < q.0@.rows.len() implies row_entry_valid(
                    #[trigger] q.0@.rows[i],
                ) by {
                    assert(q.0@.rows[i] == rows_vw(q.0.rows@)[i]);
                }
            },
            None => {},
        }
        assert forall|t: TableV|
            table_valid(t) && pos + enc_table_spec(t).len() <= buf@.len() && buf@.subrange(
                pos as int,
                pos + enc_table_spec(t).len(),
            ) == #[trigger] enc_table_spec(t) implies (r matches Some(q) && q.0@ == t && q.1 == pos
            + enc_table_spec(t).len()) by {
            let cell = u64_le_bytes(t.rows.len() as u64);
            vstd::seq_lib::lemma_concat_associative(
                enc_schema_spec(t.schema),
                cell,
                enc_rows_spec(t.rows),
            );
            assert(enc_table_spec(t) == enc_schema_spec(t.schema) + (cell + enc_rows_spec(
                t.rows,
            )));
            lemma_split_concat(
                buf@,
                pos as int,
                enc_schema_spec(t.schema),
                cell + enc_rows_spec(t.rows),
            );
            lemma_split_concat(
                buf@,
                pos + enc_schema_spec(t.schema).len(),
                cell,
                enc_rows_spec(t.rows),
            );
            lemma_le_round_trip(t.rows.len() as u64);
        }
    }
    r
}

/// The region of a non-empty serialized table list splits into its
/// first table's record and the remaining list's region.
proof fn lemma_dec_tables_step(buf: Seq<u8>, pos: int, vs: Seq<TableV>)
    requires
        vs.len() > 0,
        forall|i: int| 0 <= i < vs.len() ==> table_valid(#[trigger] vs[i]),
        0 <= pos,
        pos + enc_tables_spec(vs).len() <= buf.len(),
        buf.subrange(pos, pos + enc_tables_spec(vs).len()) == enc_tables_spec(vs),
    ensures
        table_valid(vs[0]),
        forall|i: int|
            0 <= i < vs.subrange(1, vs.len() as int).len() ==> table_valid(
                #[trigger] vs.subrange(1, vs.len() as int)[i],
            ),
        enc_tables_spec(vs).len() == enc_table_spec(vs[0]).len() + enc_tables_spec(
            vs.subrange(1, vs.len() as int),
        ).len(),
        buf.subrange(pos, pos + enc_table_spec(vs[0]).len()) == enc_table_spec(vs[0]),
        buf.subrange(
            pos + enc_table_spec(vs[0]).len(),
            pos + enc_tables_spec(vs).len(),
        ) == enc_tables_spec(vs.subrange(1, vs.len() as int)),
{
    let tail = vs.subrange(1, vs.len() as int);
    lemma_enc_tables_cons(vs);
    lemma_split_concat(buf, pos, enc_table_spec(vs[0]), enc_tables_spec(tail));
}

/// Reads `n` serialized tables starting at `pos`.
#[verifier::rlimit(100)]
#[verifier::spinoff_prover]
pub fn dec_tables(buf: &Vec<u8>, pos: usize, n: u64) -> (r: Option<(Vec<Table>, usize)>)
    requires
        pos <= buf@.len(),
    ensures
        r matches Some(q) ==> pos <= q.1 <= buf@.len() && q.0@.len() == n && (forall|i: int|
            0 <= i < q.0@.len() ==> table_valid(#[trigger] tables_vw(q.0@)[i])),
        forall|vs: Seq<TableV>|
            vs.len() == n && (forall|i: int| 0 <= i < vs.len() ==> table_valid(
                #[trigger] vs[i],
            )) && pos + enc_tables_spec(vs).len() <= buf@.len() && buf@.subrange(
                pos as int,
                pos + enc_tables_spec(vs).len(),
            ) == #[trigger] enc_tables_spec(vs) ==> (r matches Some(q) && tables_vw(q.0@) == vs && q.1
                == pos + enc_tables_spec(vs).len()),
    decreases n,
{
    if n == 0 {
        let r: Option<(Vec<Table>, usize)> = Some((Vec::new(), pos));
        proof {
            assert forall|vs: Seq<TableV>|
                vs.len() == n && (forall|i: int| 0 <= i < vs.len() ==> table_valid(
                    #[trigger] vs[i],
                )) && pos + enc_tables_spec(vs).len() <= buf@.len() && buf@.subrange(
                    pos as int,
                    pos + enc_tables_spec(vs).len(),
                ) == #[trigger] enc_tables_spec(vs) implies (r matches Some(q) && tables_vw(q.0@) == vs
                && q.1 == pos + enc_tables_spec(vs).len()) by {
                assert(vs =~= Seq::<TableV>::empty());
                assert(enc_tables_spec(vs).len() == 0);
                let q = r->Some_0;
                assert(tables_vw(q.0@) =~= vs);
            }
        }
        return r;
    }
    dec_tables_cons(buf, pos, n)
}

/// Reads a non-empty run of serialized tables: the first record, then
/// the remaining `n - 1`.
#[verifier::rlimit(100)]
#[verifier::spinoff_prover]
fn dec_tables_cons(buf: &Vec<u8>, pos: usize, n: u64) -> (r: Option<(Vec<Table>, usize)>)
    requires
        pos <= buf@.len(),
        n >= 1,
    ensures
        r matches Some(q) ==> pos <= q.1 <= buf@.len() && q.0@.len() == n && (forall|i: int|
            0 <= i < q.0@.len() ==> table_valid(#[trigger] tables_vw(q.0@)[i])),
        forall|vs: Seq<TableV>|
            vs.len() == n && (forall|i: int| 0 <= i < vs.len() ==> table_valid(#[trigger] vs[i]))
                && pos + enc_tables_spec(vs).len() <= buf@.len() && buf@.subrange(
                pos as int,
                pos + enc_tables_spec(vs).len(),
            ) == #[trigger] enc_tables_spec(vs) ==> (r matches Some(q) && tables_vw(q.0@) == vs
                && q.1 == pos + enc_tables_spec(vs).len()),
    decreases n, 0int,
{
    match dec_table(buf, pos) {
        None => {
            let r: Option<(Vec<Table>, usize)> = None;
            proof {
                assert forall|vs: Seq<TableV>|
                    vs.len() == n && (forall|i: int| 0 <= i < vs.len() ==> table_valid(
                        #[trigger] vs[i],
                    )) && pos + enc_tables_spec(vs).len() <= buf@.len() && buf@.subrange(
                        pos as int,
                        pos + enc_tables_spec(vs).len(),
                    ) == #[trigger] enc_tables_spec(vs) implies (r matches Some(q) && tables_vw(q.0@)
                    == vs && q.1 == pos + enc_tables_spec(vs).len()) by {
                    lemma_dec_tables_step(buf@, pos as int, vs);
                    assert(false);
                }
            }
            r
        },
        Some((e, p1)) => {
            match dec_tables(buf, p1, n - 1) {
                None => {
                    let r: Option<(Vec<Table>, usize)> = None;
                    proof {
                        assert forall|vs: Seq<TableV>|
                            vs.len() == n && (forall|i: int|
                                0 <= i < vs.len() ==> table_valid(#[trigger] vs[i])) && pos
                                + enc_tables_spec(vs).len() <= buf@.len() && buf@.subrange(
                                pos as int,
                                pos + enc_tables_spec(vs).len(),
                            ) == #[trigger] enc_tables_spec(vs) implies (r matches Some(q)
                            && tables_vw(q.0@) == vs && q.1 == pos + enc_tables_spec(vs).len()) by {
                            lemma_dec_tables_step(buf@, pos as int, vs);
                    assert(false);
                }
                    }
                    r
                },
                Some((v, p2)) => {
                    let mut v2 = v;
                    v2.insert(0, e);
                    let r: Option<(Vec<Table>, usize)> = Some((v2, p2));
                    proof {
                        assert forall|i: int| 0 <= i < v2@.len() implies table_valid(
                            #[trigger] tables_vw(v2@)[i],
                        ) by {
                            if i == 0 {
                                assert(v2@[0] == e);
                                assert(tables_vw(v2@)[0] == e@);
                            } else {
                                assert(v2@[i] == v@[i - 1]);
                                assert(tables_vw(v2@)[i] == v@[i - 1]@);
                                assert(tables_vw(v@)[i - 1] == v@[i - 1]@);
                            }
                        }
                        assert forall|vs: Seq<TableV>|
                            vs.len() == n && (forall|i: int|
                                0 <= i < vs.len() ==> table_valid(#[trigger] vs[i])) && pos
                                + enc_tables_spec(vs).len() <= buf@.len() && buf@.subrange(
                                pos as int,
                                pos + enc_tables_spec(vs).len(),
                            ) == #[trigger] enc_tables_spec(vs) implies (r matches Some(q)
                            && tables_vw(q.0@) == vs && q.1 == pos + enc_tables_spec(vs).len()) by {
                            let tail = vs.subrange(1, vs.len() as int);
                            lemma_dec_tables_step(buf@, pos as int, vs);
                            assert(e@ == vs[0]);
                            assert(tables_vw(v@) == tail);
                            assert forall|i: int| 0 <= i < vs.len() implies tables_vw(v2@)[i]
                                == vs[i] by {
                                if i == 0 {
                                    assert(v2@[0] == e);
                                } else {
                                    assert(v2@[i] == v@[i - 1]);
                                    assert(tables_vw(v@)[i - 1] == v@[i - 1]@);
                                    assert(tail[i - 1] == vs[i]);
                                }
                            }
                            assert(tables_vw(v2@) =~= vs);
                        }
                    }
                    r
                },
            }
        },
    }
}

/// Reads the whole serialized table list at `pos`: a count cell, then
/// that many tables. What is accepted is checked against its own
/// serialization, so a successful read consumes exactly the encoding of
/// what it returns.
#[verifier::rlimit(100)]
#[verifier::spinoff_prover]
pub fn dec_state(buf: &Vec<u8>, pos: usize) -> (r: Option<(Vec<Table>, usize)>)
    requires
        pos <= buf@.len(),
    ensures
        r matches Some(q) ==> pos <= q.1 <= buf@.len() && tables_valid(tables_vw(q.0@)),
        r matches Some(q) ==> buf@.subrange(pos as int, q.1 as int) == enc_state_spec(
            tables_vw(q.0@),
        ),
        forall|ts: Seq<TableV>|
            tables_valid(ts) && pos + enc_state_spec(ts).len() <= buf@.len() && buf@.subrange(
                pos as int,
                pos + enc_state_spec(ts).len(),
            ) == #[trigger] enc_state_spec(ts) ==> (r matches Some(q) && tables_vw(q.0@) == ts
                && q.1 == pos + enc_state_spec(ts).len()),
{
    let r0: Option<(Vec<Table>, usize)> = match dec_u64(buf, pos) {
        None => None,
        Some((cnt, p1)) => dec_tables(buf, p1, cnt),
    };
    let r: Option<(Vec<Table>, usize)> = match r0 {
        None => None,
        Some((tables, p)) => {
            let mut img: Vec<u8> = Vec::new();
            enc_state(&mut img, &tables);
            proof {
                assert(Seq::<u8>::empty() + enc_state_spec(tables_vw(tables@)) =~= enc_state_spec(
                    tables_vw(tables@),
                ));
            }
            let region = copy_range(buf, pos, p - pos);
            if bytes_eq(&img, &region) {
                Some((tables, p))
            } else {
                None
            }
        },
    };
    proof {
        match &r {
            Some(q) => {
                assert(tables_vw(q.0@).len() == q.0@.len());
            },
            None => {},
        }
        assert forall|ts: Seq<TableV>|
            tables_valid(ts) && pos + enc_state_spec(ts).len() <= buf@.len() && buf@.subrange(
                pos as int,
                pos + enc_state_spec(ts).len(),
            ) == #[trigger] enc_state_spec(ts) implies (r matches Some(q) && tables_vw(q.0@) == ts
            && q.1 == pos + enc_state_spec(ts).len()) by {
            lemma_split_concat(
                buf@,
                pos as int,
                u64_le_bytes(ts.len() as u64),
                enc_tables_spec(ts),
            );
            lemma_le_round_trip(ts.len() as u64);
        }
    }
    r
}
} // verus!
