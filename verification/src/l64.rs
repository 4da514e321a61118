//! Little-endian 64-bit integers: the fixed-width cell used by the record
//! layout. All root pointers and numeric fields in the store file are
//! encoded with these eight-byte little-endian cells.

use vstd::prelude::*;

verus! {

/// A 64-bit value whose on-disk representation is little-endian.
#[derive(Clone, Copy, Debug, PartialEq, Eq, Structural, PartialOrd, Ord, Hash)]
pub struct L64(pub u64);

/// The integer denoted by a little-endian byte sequence.
pub open spec fn le_val(s: Seq<u8>) -> int
    decreases s.len(),
{
    if s.len() == 0 {
        0
    } else {
        s[0] + 256 * le_val(s.subrange(1, s.len() as int))
    }
}

/// The eight little-endian bytes of a 64-bit value.
pub open spec fn u64_le_bytes(v: u64) -> Seq<u8> {
    seq![
        (v % 256) as u8,
        ((v / 256) % 256) as u8,
        ((v / 0x10000) % 256) as u8,
        ((v / 0x1000000) % 256) as u8,
        ((v / 0x100000000) % 256) as u8,
        ((v / 0x10000000000) % 256) as u8,
        ((v / 0x1000000000000) % 256) as u8,
        ((v / 0x100000000000000) % 256) as u8,
    ]
}

proof fn lemma_le_step(s: Seq<u8>, k: int)
    requires
        0 <= k < s.len(),
    ensures
        le_val(s.subrange(k, s.len() as int)) == s[k] + 256 * le_val(
            s.subrange(k + 1, s.len() as int),
        ),
{
    let n = s.len() as int;
    assert(s.subrange(k, n).subrange(1, n - k) =~= s.subrange(k + 1, n));
    assert(s.subrange(k, n)[0] == s[k]);
}

/// The closed form of `le_val` on an eight-byte sequence.
proof fn lemma_le_val8(s: Seq<u8>)
    requires
        s.len() == 8,
    ensures
        le_val(s) == s[0] + 256 * (s[1] + 256 * (s[2] + 256 * (s[3] + 256 * (s[4] + 256 * (s[5]
            + 256 * (s[6] + 256 * (s[7] as int))))))),
{
    lemma_le_step(s, 0);
    lemma_le_step(s, 1);
    lemma_le_step(s, 2);
    lemma_le_step(s, 3);
    lemma_le_step(s, 4);
    lemma_le_step(s, 5);
    lemma_le_step(s, 6);
    lemma_le_step(s, 7);
    assert(s.subrange(0, 8) =~= s);
    assert(le_val(s.subrange(8, 8)) == 0);
}

/// Reading back the eight little-endian bytes of a value yields the value:
/// the round-trip law for the fixed-width cell.
pub proof fn lemma_le_round_trip(v: u64)
    ensures
        le_val(u64_le_bytes(v)) == v,
{
    let s = u64_le_bytes(v);
    lemma_le_val8(s);
    let q0 = v as int;
    let q1 = q0 / 256;
    let q2 = q0 / 0x10000;
    let q3 = q0 / 0x1000000;
    let q4 = q0 / 0x100000000;
    let q5 = q0 / 0x10000000000;
    let q6 = q0 / 0x1000000000000;
    let q7 = q0 / 0x100000000000000;
    vstd::arithmetic::div_mod::lemma_div_denominator(q0, 256, 256);
    vstd::arithmetic::div_mod::lemma_div_denominator(q0, 0x10000, 256);
    vstd::arithmetic::div_mod::lemma_div_denominator(q0, 0x1000000, 256);
    vstd::arithmetic::div_mod::lemma_div_denominator(q0, 0x100000000, 256);
    vstd::arithmetic::div_mod::lemma_div_denominator(q0, 0x10000000000, 256);
    vstd::arithmetic::div_mod::lemma_div_denominator(q0, 0x1000000000000, 256);
    vstd::arithmetic::div_mod::lemma_div_denominator(q0, 0x100000000000000, 256);
    vstd::arithmetic::div_mod::lemma_fundamental_div_mod(q0, 256);
    vstd::arithmetic::div_mod::lemma_fundamental_div_mod(q1, 256);
    vstd::arithmetic::div_mod::lemma_fundamental_div_mod(q2, 256);
    vstd::arithmetic::div_mod::lemma_fundamental_div_mod(q3, 256);
    vstd::arithmetic::div_mod::lemma_fundamental_div_mod(q4, 256);
    vstd::arithmetic::div_mod::lemma_fundamental_div_mod(q5, 256);
    vstd::arithmetic::div_mod::lemma_fundamental_div_mod(q6, 256);
    vstd::arithmetic::div_mod::lemma_fundamental_div_mod(q7, 256);
    assert(q7 / 256 == 0);
    assert(q7 == 256 * (q7 / 256) + s[7]);
    assert(q6 == 256 * q7 + s[6]);
    assert(q5 == 256 * q6 + s[5]);
    assert(q4 == 256 * q5 + s[4]);
    assert(q3 == 256 * q4 + s[3]);
    assert(q2 == 256 * q3 + s[2]);
    assert(q1 == 256 * q2 + s[1]);
    assert(q0 == 256 * q1 + s[0]);
}

/// The eight little-endian bytes of the value a cell denotes are the
/// cell's bytes themselves: the inverse round-trip law.
pub proof fn lemma_le_bytes_identity(s: Seq<u8>)
    requires
        s.len() == 8,
    ensures
        u64_le_bytes(le_val(s) as u64) == s,
{
    lemma_le_val8(s);
    let v = le_val(s);
    let t7 = s[7] as int;
    let t6 = s[6] + 256 * t7;
    let t5 = s[5] + 256 * t6;
    let t4 = s[4] + 256 * t5;
    let t3 = s[3] + 256 * t4;
    let t2 = s[2] + 256 * t3;
    let t1 = s[1] + 256 * t2;
    assert(v == t1 * 256 + s[0]);
    vstd::arithmetic::div_mod::lemma_fundamental_div_mod_converse(v, 256, t1, s[0] as int);
    vstd::arithmetic::div_mod::lemma_fundamental_div_mod_converse(t1, 256, t2, s[1] as int);
    vstd::arithmetic::div_mod::lemma_fundamental_div_mod_converse(t2, 256, t3, s[2] as int);
    vstd::arithmetic::div_mod::lemma_fundamental_div_mod_converse(t3, 256, t4, s[3] as int);
    vstd::arithmetic::div_mod::lemma_fundamental_div_mod_converse(t4, 256, t5, s[4] as int);
    vstd::arithmetic::div_mod::lemma_fundamental_div_mod_converse(t5, 256, t6, s[5] as int);
    vstd::arithmetic::div_mod::lemma_fundamental_div_mod_converse(t6, 256, t7, s[6] as int);
    vstd::arithmetic::div_mod::lemma_fundamental_div_mod_converse(t7, 256, 0, s[7] as int);
    vstd::arithmetic::div_mod::lemma_div_denominator(v, 256, 256);
    vstd::arithmetic::div_mod::lemma_div_denominator(v, 0x10000, 256);
    vstd::arithmetic::div_mod::lemma_div_denominator(v, 0x1000000, 256);
    vstd::arithmetic::div_mod::lemma_div_denominator(v, 0x100000000, 256);
    vstd::arithmetic::div_mod::lemma_div_denominator(v, 0x10000000000, 256);
    vstd::arithmetic::div_mod::lemma_div_denominator(v, 0x1000000000000, 256);
    assert(t1 == v / 256);
    assert(t2 == v / 0x10000);
    assert(t3 == v / 0x1000000);
    assert(t4 == v / 0x100000000);
    assert(t5 == v / 0x10000000000);
    assert(t6 == v / 0x1000000000000);
    assert(t7 == v / 0x100000000000000);
    assert(u64_le_bytes(v as u64) =~= s);
}

/// A little-endian byte sequence of length eight denotes a value below 2^64.
pub proof fn lemma_le_val_bound(s: Seq<u8>)
    requires
        s.len() == 8,
    ensures
        0 <= le_val(s) < 0x10000000000000000,
{
    lemma_le_val8(s);
}

/// Appends the eight little-endian bytes of `v` to `out`.
pub fn push_u64_le(out: &mut Vec<u8>, v: u64)
    ensures
        final(out)@ =~= old(out)@ + u64_le_bytes(v),
{
    out.push((v % 256) as u8);
    out.push(((v / 256) % 256) as u8);
    out.push(((v / 0x10000) % 256) as u8);
    out.push(((v / 0x1000000) % 256) as u8);
    out.push(((v / 0x100000000) % 256) as u8);
    out.push(((v / 0x10000000000) % 256) as u8);
    out.push(((v / 0x1000000000000) % 256) as u8);
    out.push(((v / 0x100000000000000) % 256) as u8);
}

/// Reads the eight-byte little-endian cell at `pos`.
pub fn read_u64_le(buf: &Vec<u8>, pos: usize) -> (r: u64)
    requires
        pos + 8 <= buf@.len(),
    ensures
        r == le_val(buf@.subrange(pos as int, pos + 8)),
{
    let n = buf.len();
    let b0 = buf[pos];
    let b1 = buf[pos + 1];
    let b2 = buf[pos + 2];
    let b3 = buf[pos + 3];
    let b4 = buf[pos + 4];
    let b5 = buf[pos + 5];
    let b6 = buf[pos + 6];
    let b7 = buf[pos + 7];
    proof {
        let s = buf@.subrange(pos as int, pos + 8);
        lemma_le_val8(s);
        assert(s[0] == b0 && s[1] == b1 && s[2] == b2 && s[3] == b3 && s[4] == b4 && s[5] == b5
            && s[6] == b6 && s[7] == b7);
    }
    b0 as u64 + 256 * (b1 as u64 + 256 * (b2 as u64 + 256 * (b3 as u64 + 256 * (b4 as u64 + 256 * (
    b5 as u64 + 256 * (b6 as u64 + 256 * (b7 as u64)))))))
}

impl L64 {
    /// The plain numeric value of the cell.
    pub fn as_u64(&self) -> (r: u64)
        ensures
            r == self.0,
    {
        self.0
    }

    /// The numeric value as a `usize` index.
    pub fn as_usize(&self) -> (r: usize)
        requires
            self.0 <= usize::MAX,
        ensures
            r == self.0,
    {
        self.0 as usize
    }

    /// Decodes the first eight bytes of `s` as a little-endian cell.
    pub fn from_slice_le(s: &Vec<u8>) -> (r: L64)
        requires
            s@.len() >= 8,
        ensures
            r.0 == le_val(s@.subrange(0, 8)),
    {
        proof {
            lemma_le_val_bound(s@.subrange(0, 8));
        }
        L64(read_u64_le(s, 0))
    }

    /// Appends the cell's eight little-endian bytes to `s`.
    pub fn to_slice_le(&self, s: &mut Vec<u8>)
        ensures
            final(s)@ =~= old(s)@ + u64_le_bytes(self.0),
    {
        push_u64_le(s, self.0);
    }
}

impl From<u64> for L64 {
    fn from(u: u64) -> (r: L64)
        ensures
            r.0 == u,
    {
        L64(u)
    }
}

impl vstd::std_specs::convert::FromSpecImpl<u64> for L64 {
    open spec fn obeys_from_spec() -> bool {
        true
    }

    open spec fn from_spec(u: u64) -> L64 {
        L64(u)
    }
}

impl From<L64> for u64 {
    fn from(u: L64) -> (r: u64)
        ensures
            r == u.0,
    {
        u.0
    }
}

impl vstd::std_specs::convert::FromSpecImpl<L64> for u64 {
    open spec fn obeys_from_spec() -> bool {
        true
    }

    open spec fn from_spec(u: L64) -> u64 {
        u.0
    }
}

} // verus!
