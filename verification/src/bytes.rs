//! Big-endian fields and FourCC identifiers inside byte strings.

use vstd::prelude::*;
use crate::error::IffError;

verus! {

/// The 16-bit big-endian field at `at`.
pub open spec fn be16(s: Seq<u8>, at: int) -> u16 {
    (s[at] * 0x100 + s[at + 1]) as u16
}

/// The 32-bit big-endian field at `at`.
pub open spec fn be32(s: Seq<u8>, at: int) -> u32 {
    (s[at] * 0x100_0000 + s[at + 1] * 0x1_0000 + s[at + 2] * 0x100 + s[at + 3]) as u32
}

/// The 64-bit big-endian field at `at`.
pub open spec fn be64(s: Seq<u8>, at: int) -> u64 {
    (be32(s, at) * 0x1_0000_0000 + be32(s, at + 4)) as u64
}

/// The two bytes of `x`, most significant first.
pub open spec fn be16_bytes(x: u16) -> Seq<u8> {
    seq![(x / 0x100) as u8, (x % 0x100) as u8]
}

/// The four bytes of `x`, most significant first.
pub open spec fn be32_bytes(x: u32) -> Seq<u8> {
    seq![
        (x / 0x100_0000) as u8,
        ((x / 0x1_0000) % 0x100) as u8,
        ((x / 0x100) % 0x100) as u8,
        (x % 0x100) as u8,
    ]
}

/// The eight bytes of `x`, most significant first.
pub open spec fn be64_bytes(x: u64) -> Seq<u8> {
    be32_bytes((x / 0x1_0000_0000) as u32) + be32_bytes((x % 0x1_0000_0000) as u32)
}

/// The two's-complement reading of a 16-bit field.
pub open spec fn signed16(x: u16) -> i16 {
    if x < 0x8000 {
        x as i16
    } else {
        (x - 0x1_0000) as i16
    }
}

/// The 16-bit field that holds `x` in two's complement.
pub open spec fn unsigned16(x: i16) -> u16 {
    if x >= 0 {
        x as u16
    } else {
        (x + 0x1_0000) as u16
    }
}

/// The two's-complement reading of a 32-bit field.
pub open spec fn signed32(x: u32) -> i32 {
    if x < 0x8000_0000 {
        x as i32
    } else {
        (x - 0x1_0000_0000) as i32
    }
}

/// The two's-complement reading of a byte.
pub open spec fn signed8(x: u8) -> i8 {
    if x < 0x80 {
        x as i8
    } else {
        (x - 0x100) as i8
    }
}

/// The byte that holds `x` in two's complement.
pub open spec fn unsigned8(x: i8) -> u8 {
    if x >= 0 {
        x as u8
    } else {
        (x + 0x100) as u8
    }
}

/// The four-byte identifier at `at`.
pub open spec fn id_at(s: Seq<u8>, at: int) -> [u8; 4] {
    [s[at], s[at + 1], s[at + 2], s[at + 3]]
}

/// A result as contracts speak of it.
pub open spec fn viewed(r: Result<Vec<u8>, IffError>) -> Result<Seq<u8>, IffError> {
    match r {
        Ok(v) => Ok(v@),
        Err(e) => Err(e),
    }
}

/// The part of `d` from `c` on is `x`.
pub open spec fn lies_at(d: Seq<u8>, c: int, x: Seq<u8>) -> bool {
    0 <= c && c + x.len() <= d.len() && d.subrange(c, c + x.len()) == x
}

/// What lies at a place lies there in two parts.
pub proof fn lemma_lies_split(d: Seq<u8>, c: int, x: Seq<u8>, y: Seq<u8>)
    requires
        lies_at(d, c, x + y),
    ensures
        lies_at(d, c, x),
        lies_at(d, c + x.len(), y),
{
    let all = d.subrange(c, c + x.len() + y.len());
    assert forall|k: int| 0 <= k < x.len() implies d[c + k] == x[k] by {
        assert(all[k] == (x + y)[k]);
    }
    assert forall|k: int| 0 <= k < y.len() implies d[c + x.len() + k] == y[k] by {
        assert(all[x.len() + k] == (x + y)[x.len() + k]);
    }
    assert(d.subrange(c, c + x.len()) =~= x);
    assert(d.subrange(c + x.len(), c + x.len() + y.len()) =~= y);
}

/// A single byte of what lies at a place.
pub proof fn lemma_lies_byte(d: Seq<u8>, c: int, x: Seq<u8>, k: int)
    requires
        lies_at(d, c, x),
        0 <= k < x.len(),
    ensures
        d[c + k] == x[k],
{
    assert(d.subrange(c, c + x.len())[k] == x[k]);
}

/// A 16-bit field is found where it was put.
pub proof fn lemma_lies_be16(d: Seq<u8>, c: int, x: u16)
    requires
        lies_at(d, c, be16_bytes(x)),
    ensures
        be16(d, c) == x,
{
    lemma_lies_byte(d, c, be16_bytes(x), 0);
    lemma_lies_byte(d, c, be16_bytes(x), 1);
}

/// A 32-bit field is found where it was put.
pub proof fn lemma_lies_be32(d: Seq<u8>, c: int, x: u32)
    requires
        lies_at(d, c, be32_bytes(x)),
    ensures
        be32(d, c) == x,
{
    lemma_lies_byte(d, c, be32_bytes(x), 0);
    lemma_lies_byte(d, c, be32_bytes(x), 1);
    lemma_lies_byte(d, c, be32_bytes(x), 2);
    lemma_lies_byte(d, c, be32_bytes(x), 3);
}

/// Reads a 16-bit big-endian field.
pub fn read_be16(buf: &[u8], at: usize) -> (x: u16)
    requires
        at + 2 <= buf@.len(),
    ensures
        x == be16(buf@, at as int),
{
    buf[at] as u16 * 0x100 + buf[at + 1] as u16
}

/// Reads a 32-bit big-endian field.
pub fn read_be32(buf: &[u8], at: usize) -> (x: u32)
    requires
        at + 4 <= buf@.len(),
    ensures
        x == be32(buf@, at as int),
{
    buf[at] as u32 * 0x100_0000 + buf[at + 1] as u32 * 0x1_0000 + buf[at + 2] as u32 * 0x100
        + buf[at + 3] as u32
}

/// Reads a 64-bit big-endian field.
pub fn read_be64(buf: &[u8], at: usize) -> (x: u64)
    requires
        at + 8 <= buf@.len(),
    ensures
        x == be64(buf@, at as int),
{
    let n: usize = buf.len();
    assert(at + 8 <= n);
    read_be32(buf, at) as u64 * 0x1_0000_0000 + read_be32(buf, at + 4) as u64
}

/// Reads a four-byte identifier.
pub fn read_id(buf: &[u8], at: usize) -> (id: [u8; 4])
    requires
        at + 4 <= buf@.len(),
    ensures
        id == id_at(buf@, at as int),
{
    [buf[at], buf[at + 1], buf[at + 2], buf[at + 3]]
}

/// Interprets a 16-bit field as two's complement.
pub fn to_signed16(x: u16) -> (r: i16)
    ensures
        r == signed16(x),
{
    if x < 0x8000 {
        x as i16
    } else {
        (x as i32 - 0x1_0000) as i16
    }
}

/// Interprets a 32-bit field as two's complement.
pub fn to_signed32(x: u32) -> (r: i32)
    ensures
        r == signed32(x),
{
    if x < 0x8000_0000 {
        x as i32
    } else {
        (x as i64 - 0x1_0000_0000) as i32
    }
}

/// The 16-bit field of a two's-complement number.
pub fn to_unsigned16(x: i16) -> (r: u16)
    ensures
        r == unsigned16(x),
{
    if x >= 0 {
        x as u16
    } else {
        (x as i32 + 0x1_0000) as u16
    }
}

/// Interprets a byte as two's complement.
pub fn to_signed8(x: u8) -> (r: i8)
    ensures
        r == signed8(x),
{
    if x < 0x80 {
        x as i8
    } else {
        (x as i16 - 0x100) as i8
    }
}

/// The byte of a two's-complement number.
pub fn to_unsigned8(x: i8) -> (r: u8)
    ensures
        r == unsigned8(x),
{
    if x >= 0 {
        x as u8
    } else {
        (x as i16 + 0x100) as u8
    }
}

/// Compares two identifiers.
pub fn same_id(a: [u8; 4], b: [u8; 4]) -> (r: bool)
    ensures
        r == (a == b),
{
    proof {
        if a[0] == b[0] && a[1] == b[1] && a[2] == b[2] && a[3] == b[3] {
            assert(a =~= b);
        }
    }
    a[0] == b[0] && a[1] == b[1] && a[2] == b[2] && a[3] == b[3]
}

/// Appends a byte string.
pub fn push_all(out: &mut Vec<u8>, s: &[u8])
    ensures
        final(out)@ == old(out)@ + s@,
{
    out.extend_from_slice(s);
    assert(out@ =~= old(out)@ + s@);
}

/// Appends a 16-bit big-endian field.
pub fn push_be16(out: &mut Vec<u8>, x: u16)
    ensures
        final(out)@ == old(out)@ + be16_bytes(x),
{
    out.push((x / 0x100) as u8);
    out.push((x % 0x100) as u8);
    assert(out@ =~= old(out)@ + be16_bytes(x));
}

/// Appends a 32-bit big-endian field.
pub fn push_be32(out: &mut Vec<u8>, x: u32)
    ensures
        final(out)@ == old(out)@ + be32_bytes(x),
{
    out.push((x / 0x100_0000) as u8);
    out.push(((x / 0x1_0000) % 0x100) as u8);
    out.push(((x / 0x100) % 0x100) as u8);
    out.push((x % 0x100) as u8);
    assert(out@ =~= old(out)@ + be32_bytes(x));
}

/// Appends a 64-bit big-endian field.
pub fn push_be64(out: &mut Vec<u8>, x: u64)
    ensures
        final(out)@ == old(out)@ + be64_bytes(x),
{
    let ghost out0 = out@;
    push_be32(out, (x / 0x1_0000_0000) as u32);
    push_be32(out, (x % 0x1_0000_0000) as u32);
    assert(out@ =~= out0 + be64_bytes(x));
}

/// Copies out the bytes `from..to`.
pub fn copy_range(s: &[u8], from: usize, to: usize) -> (out: Vec<u8>)
    requires
        from <= to <= s@.len(),
    ensures
        out@ == s@.subrange(from as int, to as int),
{
    let mut out: Vec<u8> = Vec::new();
    push_all(&mut out, vstd::slice::slice_subrange(s, from, to));
    assert(out@ =~= s@.subrange(from as int, to as int));
    out
}

/// A field written big-endian reads back as itself.
pub proof fn law_be16_round_trip(x: u16)
    ensures
        be16_bytes(x).len() == 2,
        be16(be16_bytes(x), 0) == x,
{
}

/// A field written big-endian reads back as itself.
pub proof fn law_be32_round_trip(x: u32)
    ensures
        be32_bytes(x).len() == 4,
        be32(be32_bytes(x), 0) == x,
{
}

/// Two's complement loses nothing.
pub proof fn law_signed_round_trip(x: i16, b: i8)
    ensures
        signed16(unsigned16(x)) == x,
        signed8(unsigned8(b)) == b,
{
}

} // verus!
