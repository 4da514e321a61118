//! Contract types: row keys, rows and schema descriptors. The storage
//! layer treats rows and schema payloads as opaque bytes that it must
//! round-trip byte-for-byte; keys it also compares, with one total order
//! shared by every backend.

use vstd::prelude::*;

verus! {

/// A table's row key: a primary-key value, a surrogate key, or raw bytes.
#[derive(Debug)]
pub enum Key {
    I64(i64),
    Uuid(u128),
    Bytes(Vec<u8>),
}

/// The mathematical value of a `Key`.
pub enum KeyV {
    I64(int),
    Uuid(int),
    Bytes(Seq<u8>),
}

impl View for Key {
    type V = KeyV;

    open spec fn view(&self) -> KeyV {
        match self {
            Key::I64(x) => KeyV::I64(*x as int),
            Key::Uuid(x) => KeyV::Uuid(*x as int),
            Key::Bytes(b) => KeyV::Bytes(b@),
        }
    }
}

/// A schema descriptor: the table's name, whether a primary key is
/// declared, and the serialized column definitions, opaque to storage.
#[derive(Debug)]
pub struct Schema {
    pub table_name: Vec<u8>,
    pub has_primary_key: bool,
    pub payload: Vec<u8>,
}

/// The mathematical value of a `Schema`.
pub struct SchemaV {
    pub name: Seq<u8>,
    pub has_primary_key: bool,
    pub payload: Seq<u8>,
}

impl View for Schema {
    type V = SchemaV;

    open spec fn view(&self) -> SchemaV {
        SchemaV { name: self.table_name@, has_primary_key: self.has_primary_key, payload: self.payload@ }
    }
}

/// One stored row: its key and its serialized bytes.
#[derive(Debug)]
pub struct RowEntry {
    pub key: Key,
    pub row: Vec<u8>,
}

/// The mathematical value of a `RowEntry`.
pub struct RowEntryV {
    pub key: KeyV,
    pub row: Seq<u8>,
}

impl View for RowEntry {
    type V = RowEntryV;

    open spec fn view(&self) -> RowEntryV {
        RowEntryV { key: self.key@, row: self.row@ }
    }
}

/// One data table: its schema descriptor and its rows, kept strictly
/// sorted by key in the paged backend.
#[derive(Debug)]
pub struct Table {
    pub schema: Schema,
    pub rows: Vec<RowEntry>,
}

/// The mathematical value of a `Table`.
pub struct TableV {
    pub schema: SchemaV,
    pub rows: Seq<RowEntryV>,
}

impl View for Table {
    type V = TableV;

    open spec fn view(&self) -> TableV {
        TableV { schema: self.schema@, rows: rows_vw(self.rows@) }
    }
}

impl Clone for Table {
    fn clone(&self) -> (r: Table)
        ensures
            r@ == self@,
    {
        let r = Table { schema: self.schema.clone(), rows: clone_rows(&self.rows) };
        proof {
            assert(r@.rows =~= self@.rows);
        }
        r
    }
}

/// Copies a row sequence entry by entry.
pub fn clone_rows(v: &Vec<RowEntry>) -> (r: Vec<RowEntry>)
    ensures
        rows_vw(r@) == rows_vw(v@),
        r@.len() == v@.len(),
{
    let mut r: Vec<RowEntry> = Vec::new();
    let mut i: usize = 0;
    while i < v.len()
        invariant
            i <= v@.len(),
            r@.len() == i,
            rows_vw(r@) =~= rows_vw(v@).subrange(0, i as int),
        decreases v@.len() - i,
    {
        r.push(v[i].clone());
        proof {
            assert(rows_vw(r@) =~= rows_vw(v@).subrange(0, i + 1));
        }
        i += 1;
    }
    proof {
        assert(rows_vw(v@).subrange(0, v@.len() as int) =~= rows_vw(v@));
    }
    r
}

/// The element-wise view of a sequence of tables.
pub open spec fn tables_vw(s: Seq<Table>) -> Seq<TableV> {
    s.map_values(|t: Table| t@)
}

/// The element-wise view of a sequence of row entries.
pub open spec fn rows_vw(s: Seq<RowEntry>) -> Seq<RowEntryV> {
    s.map_values(|e: RowEntry| e@)
}

/// The element-wise view of a sequence of byte strings.
pub open spec fn names_vw(s: Seq<Vec<u8>>) -> Seq<Seq<u8>> {
    s.map_values(|n: Vec<u8>| n@)
}

/// Strict lexicographic order on byte strings.
pub open spec fn lex_lt(a: Seq<u8>, b: Seq<u8>) -> bool
    decreases a.len(),
{
    if b.len() == 0 {
        false
    } else if a.len() == 0 {
        true
    } else if a[0] < b[0] {
        true
    } else if a[0] > b[0] {
        false
    } else {
        lex_lt(a.subrange(1, a.len() as int), b.subrange(1, b.len() as int))
    }
}

/// Equal prefixes of length `i` do not affect the lexicographic order.
pub proof fn lemma_lex_skip(a: Seq<u8>, b: Seq<u8>, i: int)
    requires
        0 <= i <= a.len(),
        i <= b.len(),
        a.subrange(0, i) == b.subrange(0, i),
    ensures
        lex_lt(a, b) == lex_lt(a.skip(i), b.skip(i)),
    decreases i,
{
    if i == 0 {
        assert(a.skip(0) =~= a);
        assert(b.skip(0) =~= b);
    } else {
        assert(a.subrange(0, i - 1) =~= a.subrange(0, i).subrange(0, i - 1));
        assert(b.subrange(0, i - 1) =~= b.subrange(0, i).subrange(0, i - 1));
        lemma_lex_skip(a, b, i - 1);
        let sa = a.skip(i - 1);
        let sb = b.skip(i - 1);
        assert(sa[0] == a[i - 1] && sb[0] == b[i - 1]);
        assert(a.subrange(0, i)[i - 1] == a[i - 1]);
        assert(b.subrange(0, i)[i - 1] == b[i - 1]);
        assert(sa[0] == sb[0]);
        assert(sa.subrange(1, sa.len() as int) =~= a.skip(i));
        assert(sb.subrange(1, sb.len() as int) =~= b.skip(i));
    }
}

/// Exactly one of `a < b`, `b < a`, `a == b` holds: the order is total.
pub proof fn lemma_lex_total(a: Seq<u8>, b: Seq<u8>)
    ensures
        lex_lt(a, b) || lex_lt(b, a) || a == b,
        !(lex_lt(a, b) && lex_lt(b, a)),
        lex_lt(a, b) ==> a != b,
    decreases a.len() + b.len(),
{
    if a.len() == 0 && b.len() == 0 {
        assert(a =~= b);
    } else if a.len() > 0 && b.len() > 0 && a[0] == b[0] {
        let ta = a.subrange(1, a.len() as int);
        let tb = b.subrange(1, b.len() as int);
        lemma_lex_total(ta, tb);
        if !lex_lt(a, b) && !lex_lt(b, a) {
            assert(ta =~= tb);
            assert forall|k: int| 0 <= k < a.len() implies a[k] == b[k] by {
                if k > 0 {
                    assert(a[k] == ta[k - 1]);
                    assert(b[k] == tb[k - 1]);
                }
            }
            assert(a =~= b);
        }
        if a == b {
            assert(ta =~= tb);
        }
    }
}

/// The lexicographic order is transitive.
pub proof fn lemma_lex_trans(a: Seq<u8>, b: Seq<u8>, c: Seq<u8>)
    requires
        lex_lt(a, b),
        lex_lt(b, c),
    ensures
        lex_lt(a, c),
    decreases a.len() + b.len() + c.len(),
{
    if a.len() > 0 && b.len() > 0 && c.len() > 0 {
        if a[0] == b[0] && b[0] == c[0] {
            lemma_lex_trans(
                a.subrange(1, a.len() as int),
                b.subrange(1, b.len() as int),
                c.subrange(1, c.len() as int),
            );
        }
    }
}

/// The rank that orders the key variants among each other.
pub open spec fn key_rank(k: KeyV) -> int {
    match k {
        KeyV::I64(_) => 0,
        KeyV::Uuid(_) => 1,
        KeyV::Bytes(_) => 2,
    }
}

/// The one total order on keys: by variant rank, then by value.
pub open spec fn key_lt(a: KeyV, b: KeyV) -> bool {
    if key_rank(a) != key_rank(b) {
        key_rank(a) < key_rank(b)
    } else {
        match (a, b) {
            (KeyV::I64(x), KeyV::I64(y)) => x < y,
            (KeyV::Uuid(x), KeyV::Uuid(y)) => x < y,
            (KeyV::Bytes(x), KeyV::Bytes(y)) => lex_lt(x, y),
            _ => false,
        }
    }
}

/// Exactly one of `a < b`, `b < a`, `a == b` holds for keys.
pub proof fn lemma_key_total(a: KeyV, b: KeyV)
    ensures
        key_lt(a, b) || key_lt(b, a) || a == b,
        !(key_lt(a, b) && key_lt(b, a)),
        key_lt(a, b) ==> a != b,
{
    match (a, b) {
        (KeyV::Bytes(x), KeyV::Bytes(y)) => lemma_lex_total(x, y),
        _ => (),
    }
}

/// The key order is transitive.
pub proof fn lemma_key_trans(a: KeyV, b: KeyV, c: KeyV)
    requires
        key_lt(a, b),
        key_lt(b, c),
    ensures
        key_lt(a, c),
{
    match (a, b, c) {
        (KeyV::Bytes(x), KeyV::Bytes(y), KeyV::Bytes(z)) => lemma_lex_trans(x, y, z),
        _ => (),
    }
}

/// Copies a byte string.
pub fn clone_bytes(v: &Vec<u8>) -> (r: Vec<u8>)
    ensures
        r@ == v@,
{
    let mut r: Vec<u8> = Vec::new();
    let mut i: usize = 0;
    while i < v.len()
        invariant
            i <= v@.len(),
            r@ =~= v@.subrange(0, i as int),
        decreases v@.len() - i,
    {
        r.push(v[i]);
        i += 1;
    }
    assert(r@ =~= v@);
    r
}

/// Byte-for-byte equality of two byte strings.
pub fn bytes_eq(a: &Vec<u8>, b: &Vec<u8>) -> (r: bool)
    ensures
        r == (a@ == b@),
{
    if a.len() != b.len() {
        proof {
            assert(a@ != b@);
        }
        return false;
    }
    let mut i: usize = 0;
    while i < a.len()
        invariant
            a@.len() == b@.len(),
            i <= a@.len(),
            a@.subrange(0, i as int) == b@.subrange(0, i as int),
        decreases a@.len() - i,
    {
        if a[i] != b[i] {
            proof {
                assert(a@[i as int] != b@[i as int]);
            }
            return false;
        }
        proof {
            assert(a@.subrange(0, i + 1) =~= a@.subrange(0, i as int).push(a@[i as int]));
            assert(b@.subrange(0, i + 1) =~= b@.subrange(0, i as int).push(b@[i as int]));
        }
        i += 1;
    }
    proof {
        assert(a@.subrange(0, a@.len() as int) =~= a@);
        assert(b@.subrange(0, b@.len() as int) =~= b@);
    }
    true
}

/// Strict lexicographic comparison of two byte strings.
pub fn bytes_lt(a: &Vec<u8>, b: &Vec<u8>) -> (r: bool)
    ensures
        r == lex_lt(a@, b@),
{
    let mut i: usize = 0;
    let a_len = a.len();
    let b_len = b.len();
    let min: usize = if a_len < b_len {
        a_len
    } else {
        b_len
    };
    while i < min
        invariant
            i <= min,
            min <= a@.len(),
            min <= b@.len(),
            min == if a@.len() < b@.len() {
                a@.len()
            } else {
                b@.len()
            },
            a@.subrange(0, i as int) == b@.subrange(0, i as int),
        decreases min - i,
    {
        let x = a[i];
        let y = b[i];
        if x < y {
            proof {
                lemma_lex_skip(a@, b@, i as int);
            }
            return true;
        }
        if x > y {
            proof {
                lemma_lex_skip(a@, b@, i as int);
            }
            return false;
        }
        proof {
            assert(a@.subrange(0, i + 1) =~= a@.subrange(0, i as int).push(a@[i as int]));
            assert(b@.subrange(0, i + 1) =~= b@.subrange(0, i as int).push(b@[i as int]));
        }
        i += 1;
    }
    proof {
        lemma_lex_skip(a@, b@, min as int);
    }
    a_len < b_len
}

/// Comparison of two keys in the one total key order.
pub fn key_lt_exec(a: &Key, b: &Key) -> (r: bool)
    ensures
        r == key_lt(a@, b@),
{
    match (a, b) {
        (Key::I64(x), Key::I64(y)) => *x < *y,
        (Key::I64(_), _) => true,
        (Key::Uuid(_), Key::I64(_)) => false,
        (Key::Uuid(x), Key::Uuid(y)) => *x < *y,
        (Key::Uuid(_), Key::Bytes(_)) => true,
        (Key::Bytes(_), Key::I64(_)) => false,
        (Key::Bytes(_), Key::Uuid(_)) => false,
        (Key::Bytes(x), Key::Bytes(y)) => bytes_lt(x, y),
    }
}

/// Equality of two keys.
pub fn key_eq_exec(a: &Key, b: &Key) -> (r: bool)
    ensures
        r == (a@ == b@),
{
    match (a, b) {
        (Key::I64(x), Key::I64(y)) => *x == *y,
        (Key::Uuid(x), Key::Uuid(y)) => *x == *y,
        (Key::Bytes(x), Key::Bytes(y)) => bytes_eq(x, y),
        _ => false,
    }
}

impl Clone for Key {
    fn clone(&self) -> (r: Key)
        ensures
            r@ == self@,
    {
        match self {
            Key::I64(x) => Key::I64(*x),
            Key::Uuid(x) => Key::Uuid(*x),
            Key::Bytes(b) => Key::Bytes(clone_bytes(b)),
        }
    }
}

impl Clone for Schema {
    fn clone(&self) -> (r: Schema)
        ensures
            r@ == self@,
    {
        Schema {
            table_name: clone_bytes(&self.table_name),
            has_primary_key: self.has_primary_key,
            payload: clone_bytes(&self.payload),
        }
    }
}

impl Clone for RowEntry {
    fn clone(&self) -> (r: RowEntry)
        ensures
            r@ == self@,
    {
        RowEntry { key: self.key.clone(), row: clone_bytes(&self.row) }
    }
}

/// The row stored under key `k`, if any: the first match in `rows`.
pub open spec fn find_row(rows: Seq<RowEntryV>, k: KeyV) -> Option<Seq<u8>>
    decreases rows.len(),
{
    if rows.len() == 0 {
        None
    } else if rows[0].key == k {
        Some(rows[0].row)
    } else {
        find_row(rows.subrange(1, rows.len() as int), k)
    }
}

/// Rows strictly sorted by key: scan order is key order, keys are unique.
pub open spec fn rows_sorted(rows: Seq<RowEntryV>) -> bool {
    forall|i: int, j: int| 0 <= i < j < rows.len() ==> #[trigger] key_lt(rows[i].key, rows[j].key)
}

/// Byte-string names strictly sorted lexicographically.
pub open spec fn names_sorted(names: Seq<Seq<u8>>) -> bool {
    forall|i: int, j: int| 0 <= i < j < names.len() ==> #[trigger] lex_lt(names[i], names[j])
}

/// A key below every key in `rows` is absent from `rows`.
pub proof fn lemma_find_row_none(rows: Seq<RowEntryV>, k: KeyV)
    requires
        forall|i: int| 0 <= i < rows.len() ==> #[trigger] rows[i].key != k,
    ensures
        find_row(rows, k) == None::<Seq<u8>>,
    decreases rows.len(),
{
    if rows.len() > 0 {
        lemma_find_row_none(rows.subrange(1, rows.len() as int), k);
    }
}

} // verus!
