//! Bitplanes: one bit of every pixel's colour index per plane row, leftmost pixel
//! in the top bit.

use vstd::prelude::*;
use crate::bitmap::rows;

verus! {

/// Two to the power of `k`, for `k` up to eight.
pub open spec fn weight(k: int) -> int {
    if k <= 0 {
        1
    } else if k == 1 {
        2
    } else if k == 2 {
        4
    } else if k == 3 {
        8
    } else if k == 4 {
        16
    } else if k == 5 {
        32
    } else if k == 6 {
        64
    } else if k == 7 {
        128
    } else {
        256
    }
}

/// Whether bit `k` of a byte is set; a byte has no bits beyond the seventh.
pub open spec fn has_bit(v: u8, k: int) -> bool {
    0 <= k < 8 && (v as int / weight(k)) % 2 == 1
}

/// The bit of pixel `x` in a plane row; clear where the row is too short.
pub open spec fn row_bit(row: Seq<u8>, x: int) -> bool {
    x / 8 < row.len() && has_bit(row[x / 8], 7 - x % 8)
}

/// Bit `p` of the value of pixel `x`; clear past the last value.
pub open spec fn value_bit(vals: Seq<u8>, p: int, x: int) -> bool {
    x < vals.len() && has_bit(vals[x], p)
}

/// Byte `i` of the row that holds bit `p` of every value.
pub open spec fn plane_byte(vals: Seq<u8>, p: int, i: int) -> int {
    (if value_bit(vals, p, 8 * i) { 128int } else { 0 })
        + (if value_bit(vals, p, 8 * i + 1) { 64int } else { 0 })
        + (if value_bit(vals, p, 8 * i + 2) { 32int } else { 0 })
        + (if value_bit(vals, p, 8 * i + 3) { 16int } else { 0 })
        + (if value_bit(vals, p, 8 * i + 4) { 8int } else { 0 })
        + (if value_bit(vals, p, 8 * i + 5) { 4int } else { 0 })
        + (if value_bit(vals, p, 8 * i + 6) { 2int } else { 0 })
        + (if value_bit(vals, p, 8 * i + 7) { 1int } else { 0 })
}

/// The row of `width` bytes that holds bit `p` of every value.
pub open spec fn plane_row(vals: Seq<u8>, p: int, width: int) -> Seq<u8> {
    Seq::new(width as nat, |i: int| plane_byte(vals, p, i) as u8)
}

/// Eight bits are read back from the byte they make.
proof fn lemma_eight(
    v: u8,
    b0: bool,
    b1: bool,
    b2: bool,
    b3: bool,
    b4: bool,
    b5: bool,
    b6: bool,
    b7: bool,
)
    by (bit_vector)
    requires
        v == (if b0 { 128u8 } else { 0u8 }) + (if b1 { 64u8 } else { 0u8 }) + (if b2 { 32u8 } else { 0u8 })
            + (if b3 { 16u8 } else { 0u8 }) + (if b4 { 8u8 } else { 0u8 }) + (if b5 { 4u8 } else { 0u8 })
            + (if b6 { 2u8 } else { 0u8 }) + (if b7 { 1u8 } else { 0u8 }),
    ensures
        (v / 128u8 % 2u8 == 1u8) == b0,
        (v / 64u8 % 2u8 == 1u8) == b1,
        (v / 32u8 % 2u8 == 1u8) == b2,
        (v / 16u8 % 2u8 == 1u8) == b3,
        (v / 8u8 % 2u8 == 1u8) == b4,
        (v / 4u8 % 2u8 == 1u8) == b5,
        (v / 2u8 % 2u8 == 1u8) == b6,
        (v % 2u8 == 1u8) == b7,
{
}

/// Every bit of a plane row is the one it was made of.
pub proof fn lemma_plane_row(vals: Seq<u8>, p: int, width: int, x: int)
    requires
        0 <= x < 8 * width,
    ensures
        row_bit(plane_row(vals, p, width), x) == value_bit(vals, p, x),
{
    let i = x / 8;
    let v = plane_byte(vals, p, i) as u8;
    assert(plane_row(vals, p, width)[i] == v);
    lemma_eight(
        v,
        value_bit(vals, p, 8 * i),
        value_bit(vals, p, 8 * i + 1),
        value_bit(vals, p, 8 * i + 2),
        value_bit(vals, p, 8 * i + 3),
        value_bit(vals, p, 8 * i + 4),
        value_bit(vals, p, 8 * i + 5),
        value_bit(vals, p, 8 * i + 6),
        value_bit(vals, p, 8 * i + 7),
    );
    let k = x % 8;
    assert(x == 8 * i + k);
    assert(k == 0 || k == 1 || k == 2 || k == 3 || k == 4 || k == 5 || k == 6 || k == 7);
}

/// A byte is the sum of its bits.
pub proof fn lemma_bit_step(v: u8, k: int)
    requires
        0 <= k < 8,
    ensures
        v as int % weight(k + 1) == v as int % weight(k) + if has_bit(v, k) {
            weight(k)
        } else {
            0
        },
{
}

fn weight_of(k: usize) -> (w: u8)
    requires
        k < 8,
    ensures
        w == weight(k as int),
{
    if k == 0 {
        1
    } else if k == 1 {
        2
    } else if k == 2 {
        4
    } else if k == 3 {
        8
    } else if k == 4 {
        16
    } else if k == 5 {
        32
    } else if k == 6 {
        64
    } else {
        128
    }
}

/// Reads one bit of a byte.
pub fn test_bit(v: u8, k: usize) -> (r: bool)
    ensures
        r == has_bit(v, k as int),
{
    k < 8 && v / weight_of(k) % 2 == 1
}

/// Reads the bit of one pixel.
pub fn test_row_bit(row: &[u8], x: usize) -> (r: bool)
    ensures
        r == row_bit(row@, x as int),
{
    x / 8 < row.len() && test_bit(row[x / 8], 7 - x % 8)
}

fn test_value_bit(vals: &[u8], p: usize, x: usize) -> (r: bool)
    ensures
        r == value_bit(vals@, p as int, x as int),
{
    x < vals.len() && test_bit(vals[x], p)
}

/// Packs bit `p` of every value into a row of `width` bytes.
pub fn indices_to_planar_row(vals: &[u8], p: usize, width: usize) -> (row: Vec<u8>)
    requires
        width <= 0x2000,
    ensures
        row@ == plane_row(vals@, p as int, width as int),
{
    let mut row: Vec<u8> = Vec::new();
    let mut i: usize = 0;
    while i < width
        invariant
            width <= 0x2000,
            i <= width,
            row@ == plane_row(vals@, p as int, i as int),
        decreases width - i,
    {
        let mut v: u8 = 0;
        if test_value_bit(vals, p, 8 * i) {
            v = 128;
        }
        if test_value_bit(vals, p, 8 * i + 1) {
            v += 64;
        }
        if test_value_bit(vals, p, 8 * i + 2) {
            v += 32;
        }
        if test_value_bit(vals, p, 8 * i + 3) {
            v += 16;
        }
        if test_value_bit(vals, p, 8 * i + 4) {
            v += 8;
        }
        if test_value_bit(vals, p, 8 * i + 5) {
            v += 4;
        }
        if test_value_bit(vals, p, 8 * i + 6) {
            v += 2;
        }
        if test_value_bit(vals, p, 8 * i + 7) {
            v += 1;
        }
        row.push(v);
        i += 1;
        assert(row@ =~= plane_row(vals@, p as int, i as int));
    }
    row
}

/// The colour index of pixel `x`, made of its bits in the first `n` of the rows from
/// `first` on.
pub open spec fn index_at(rs: Seq<Seq<u8>>, first: int, x: int, n: int) -> int
    decreases n,
{
    if n <= 0 {
        0
    } else {
        index_at(rs, first, x, n - 1) + if n <= 8 && row_bit(rs[first + n - 1], x) {
            weight(n - 1)
        } else {
            0
        }
    }
}

/// A colour index fits in a byte, and in as many bits as there are planes.
pub proof fn lemma_index_bound(rs: Seq<Seq<u8>>, first: int, x: int, n: int)
    requires
        0 <= n,
    ensures
        0 <= index_at(rs, first, x, n) < weight(n),
    decreases n,
{
    if n > 0 {
        lemma_index_bound(rs, first, x, n - 1);
    }
}

/// Putting the bits of an index into planes and reading them back gives the index, as
/// far as the planes reach.
pub proof fn lemma_index_back(rs: Seq<Seq<u8>>, first: int, x: int, n: int, v: u8)
    requires
        0 <= n,
        forall|p: int| 0 <= p < n && p < 8 ==> row_bit(#[trigger] rs[first + p], x) == has_bit(v, p),
    ensures
        index_at(rs, first, x, n) == v as int % weight(n),
    decreases n,
{
    if n > 0 {
        lemma_index_back(rs, first, x, n - 1, v);
        assert(rs[first + (n - 1)] == rs[first + n - 1]);
        if n <= 8 {
            lemma_bit_step(v, n - 1);
        }
    }
}

/// Reads the colour indices of a scanline of `width` pixels, whose `n` plane rows start
/// at row `first`.
pub fn planar_row_to_indices(planar: &[Vec<u8>], first: usize, n: usize, width: usize) -> (out:
    Vec<u8>)
    requires
        first + n <= planar@.len(),
        n <= 0xFF,
    ensures
        out@ == line_indices(rows(planar@), first as int, n as int, width as int),
{
    let total: usize = planar.len();
    let ghost rs = rows(planar@);
    let mut out: Vec<u8> = Vec::new();
    let mut x: usize = 0;
    while x < width
        invariant
            first + n <= planar@.len() <= usize::MAX,
            rs == rows(planar@),
            x <= width,
            out@ == line_indices(rs, first as int, n as int, x as int),
        decreases width - x,
    {
        let mut v: u8 = 0;
        let mut p: usize = 0;
        while p < n
            invariant
                first + n <= planar@.len() <= usize::MAX,
                rs == rows(planar@),
                p <= n,
                v == index_at(rs, first as int, x as int, p as int),
            decreases n - p,
        {
            proof {
                lemma_index_bound(rs, first as int, x as int, p + 1);
            }
            if p < 8 && test_row_bit(planar[first + p].as_slice(), x) {
                v += weight_of(p);
            }
            p += 1;
        }
        out.push(v);
        x += 1;
        assert(out@ =~= line_indices(rs, first as int, n as int, x as int));
    }
    out
}

/// The colour indices of a scanline of `width` pixels, whose `n` plane rows start at
/// row `first`.
pub open spec fn line_indices(rs: Seq<Seq<u8>>, first: int, n: int, width: int) -> Seq<u8> {
    Seq::new(width as nat, |x: int| index_at(rs, first, x, n) as u8)
}

} // verus!
