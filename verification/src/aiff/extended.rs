//! The 80-bit extended numbers in which sample rates are written.

use vstd::arithmetic::power2::{
    lemma2_to64, lemma2_to64_rest, lemma_pow2_adds, lemma_pow2_strictly_increases,
    lemma_pow2_unfold, pow2,
};
use vstd::prelude::*;
use crate::aiff::error::AiffError;
use crate::bytes::{be32_bytes, be64, be64_bytes, lemma_lies_be32, push_be64, read_be64};

verus! {

/// The number that ten bytes stand for.
#[derive(Clone, Copy, Debug, PartialEq, Eq, Structural)]
pub enum Extended {
    /// Not a number.
    Nan,
    /// An infinity.
    Infinite {
        /// Whether it is the negative one.
        negative: bool,
    },
    /// The number `mantissa * 2^scale`, or its negative.
    Finite {
        /// Whether the number is negative.
        negative: bool,
        /// The integer that is scaled.
        mantissa: u64,
        /// The power of two that it is scaled by.
        scale: i32,
    },
}

/// The number that the ten bytes `b` stand for: a sign bit, an exponent of 15 bits with a bias
/// of 16383, and a mantissa of 64 bits that holds its integer bit. An exponent of zero counts
/// as one; the largest marks infinities, whose fraction is zero, and what is not a number.
pub open spec fn extended(b: Seq<u8>) -> Extended {
    let negative = b[0] >= 0x80;
    let exponent = (b[0] % 0x80) * 0x100 + b[1];
    let mantissa = be64(b, 2);
    if exponent == 0x7FFF {
        if mantissa == 0 || mantissa == 0x8000_0000_0000_0000 {
            Extended::Infinite { negative }
        } else {
            Extended::Nan
        }
    } else if exponent == 0 {
        Extended::Finite { negative, mantissa, scale: (1 - 16_383 - 63) as i32 }
    } else {
        Extended::Finite { negative, mantissa, scale: (exponent - 16_383 - 63) as i32 }
    }
}

/// Decodes a number.
pub fn decode_extended(bytes: [u8; 10]) -> (r: Extended)
    ensures
        r == extended(bytes@),
{
    let negative: bool = bytes[0] >= 0x80;
    let exponent: i32 = (bytes[0] % 0x80) as i32 * 0x100 + bytes[1] as i32;
    let mantissa: u64 = read_be64(&bytes, 2);
    if exponent == 0x7FFF {
        if mantissa == 0 || mantissa == 0x8000_0000_0000_0000 {
            return Extended::Infinite { negative };
        }
        return Extended::Nan;
    }
    let effective: i32 = if exponent == 0 {
        1
    } else {
        exponent
    };
    Extended::Finite { negative, mantissa, scale: effective - 16_383 - 63 }
}

/// The least integer of 64 bits that is 2^k or more once it is rounded to 53 significant bits,
/// ties to even.
pub open spec fn rounds_to_power(k: nat) -> int {
    if k < 54 {
        pow2(k) as int
    } else {
        pow2(k) - pow2((k - 54) as nat)
    }
}

/// Whether `mantissa * 2^scale` is above zero and finite in double precision: it is more than
/// 2^-1075, half the least number there is, which would be rounded to zero, and it is not
/// rounded to 2^1024 or more.
pub open spec fn is_positive_double(mantissa: u64, scale: int) -> bool {
    &&& mantissa > 0
    &&& scale < -1074 ==> -1075 - scale < 64 && mantissa > pow2((-1075 - scale) as nat)
    &&& scale < 1024
    &&& 1024 - scale <= 64 ==> mantissa < rounds_to_power((1024 - scale) as nat)
}

/// Whether a number can be a sample rate: it is positive and finite in double precision.
pub open spec fn is_sample_rate(x: Extended) -> bool {
    match x {
        Extended::Finite { negative, mantissa, scale } => !negative && is_positive_double(
            mantissa,
            scale as int,
        ),
        _ => false,
    }
}

fn power_of_two(k: u32) -> (r: u128)
    requires
        k <= 64,
    ensures
        r == pow2(k as nat),
        0 < r <= 0x1_0000_0000_0000_0000,
        k < 64 ==> r <= 0x8000_0000_0000_0000,
{
    let mut r: u128 = 1;
    let mut i: u32 = 0;
    proof {
        lemma2_to64();
    }
    while i < k
        invariant
            i <= k <= 64,
            r == pow2(i as nat),
            0 < r <= 0x1_0000_0000_0000_0000,
            i < 64 ==> r <= 0x8000_0000_0000_0000,
            pow2(64) == 0x1_0000_0000_0000_0000,
        decreases k - i,
    {
        proof {
            lemma_pow2_unfold((i + 1) as nat);
            lemma_pow2_unfold(64);
            if i + 1 < 63 {
                lemma_pow2_strictly_increases((i + 1) as nat, 63);
            }
        }
        r = r * 2;
        i += 1;
    }
    r
}

fn can_be_rate(x: Extended) -> (r: bool)
    ensures
        r == is_sample_rate(x),
{
    match x {
        Extended::Finite { negative, mantissa, scale } => {
            if negative || mantissa == 0 || scale >= 1024 {
                return false;
            }
            if scale < -1074 {
                return -1138 <= scale && mantissa as u128 > power_of_two((-1075 - scale) as u32);
            }
            let k: u32 = (1024 - scale) as u32;
            if k > 64 {
                return true;
            }
            let whole: u128 = power_of_two(k);
            let half: u128 = if k < 54 {
                0
            } else {
                power_of_two(k - 54)
            };
            proof {
                if k >= 54 {
                    lemma_pow2_strictly_increases((k - 54) as nat, k as nat);
                }
            }
            (mantissa as u128) < whole - half
        },
        _ => false,
    }
}

/// Decodes a sample rate.
pub fn decode_sample_rate(bytes: [u8; 10]) -> (r: Result<Extended, AiffError>)
    ensures
        r == if is_sample_rate(extended(bytes@)) {
            Ok(extended(bytes@))
        } else {
            Err(AiffError::InvalidSampleRate)
        },
{
    let x: Extended = decode_extended(bytes);
    if can_be_rate(x) {
        Ok(x)
    } else {
        Err(AiffError::InvalidSampleRate)
    }
}

/// Whether ten bytes can stand for the number.
pub open spec fn is_encodable(x: Extended) -> bool {
    match x {
        Extended::Finite { scale, .. } => 1 - 16_383 - 63 <= scale <= 0x7FFE - 16_383 - 63,
        _ => true,
    }
}

/// Ten bytes with the given sign, exponent and mantissa.
pub open spec fn fields(negative: bool, exponent: int, mantissa: u64) -> Seq<u8> {
    seq![
        (exponent / 0x100 + if negative {
            0x80int
        } else {
            0
        }) as u8,
        (exponent % 0x100) as u8,
    ] + be64_bytes(mantissa)
}

/// The bytes that stand for a number. The exponent of a number that is too small to have its
/// integer bit set is zero.
pub open spec fn extended_bytes(x: Extended) -> Seq<u8> {
    match x {
        Extended::Nan => fields(false, 0x7FFF, 0xC000_0000_0000_0000),
        Extended::Infinite { negative } => fields(negative, 0x7FFF, 0x8000_0000_0000_0000),
        Extended::Finite { negative, mantissa, scale } => if scale == 1 - 16_383 - 63 && mantissa
            < 0x8000_0000_0000_0000 {
            fields(negative, 0, mantissa)
        } else {
            fields(negative, scale + 16_383 + 63, mantissa)
        },
    }
}

fn put_fields(negative: bool, exponent: u16, mantissa: u64) -> (r: [u8; 10])
    requires
        exponent <= 0x7FFF,
    ensures
        r@ == fields(negative, exponent as int, mantissa),
{
    let mut v: Vec<u8> = Vec::new();
    let sign: u8 = if negative {
        0x80
    } else {
        0
    };
    v.push((exponent / 0x100) as u8 + sign);
    v.push((exponent % 0x100) as u8);
    push_be64(&mut v, mantissa);
    assert(v@ =~= fields(negative, exponent as int, mantissa));
    let r: [u8; 10] = [v[0], v[1], v[2], v[3], v[4], v[5], v[6], v[7], v[8], v[9]];
    assert(r@ =~= v@);
    r
}

/// Encodes a number, where ten bytes can stand for it.
pub fn encode_extended(x: Extended) -> (r: Option<[u8; 10]>)
    ensures
        match r {
            Some(b) => is_encodable(x) && b@ == extended_bytes(x),
            None => !is_encodable(x),
        },
{
    match x {
        Extended::Nan => Some(put_fields(false, 0x7FFF, 0xC000_0000_0000_0000)),
        Extended::Infinite { negative } => Some(
            put_fields(negative, 0x7FFF, 0x8000_0000_0000_0000),
        ),
        Extended::Finite { negative, mantissa, scale } => {
            if scale < 1 - 16_383 - 63 || scale > 0x7FFE - 16_383 - 63 {
                None
            } else if scale == 1 - 16_383 - 63 && mantissa < 0x8000_0000_0000_0000 {
                Some(put_fields(negative, 0, mantissa))
            } else {
                Some(put_fields(negative, (scale + 16_383 + 63) as u16, mantissa))
            }
        },
    }
}

/// Encodes a sample rate.
pub fn encode_sample_rate(x: Extended) -> (r: Result<[u8; 10], AiffError>)
    ensures
        match r {
            Ok(b) => is_sample_rate(x) && b@ == extended_bytes(x),
            Err(e) => !is_sample_rate(x) && e == AiffError::InvalidSampleRate,
        },
{
    if !can_be_rate(x) {
        return Err(AiffError::InvalidSampleRate);
    }
    match encode_extended(x) {
        Some(b) => Ok(b),
        None => Err(AiffError::InvalidSampleRate),
    }
}

proof fn lemma_fields(negative: bool, exponent: int, mantissa: u64)
    requires
        0 <= exponent <= 0x7FFF,
    ensures
        ({
            let b = fields(negative, exponent, mantissa);
            &&& b.len() == 10
            &&& (b[0] >= 0x80) == negative
            &&& (b[0] % 0x80) * 0x100 + b[1] == exponent
            &&& be64(b, 2) == mantissa
        }),
{
    let b = fields(negative, exponent, mantissa);
    let high = (mantissa / 0x1_0000_0000) as u32;
    let low = (mantissa % 0x1_0000_0000) as u32;
    assert(b.subrange(2, 6) =~= be32_bytes(high));
    assert(b.subrange(6, 10) =~= be32_bytes(low));
    lemma_lies_be32(b, 2, high);
    lemma_lies_be32(b, 6, low);
}

/// A number that is encoded is decoded again, and a sample rate can be encoded.
pub proof fn law_extended_round_trip(x: Extended)
    ensures
        is_encodable(x) ==> extended(extended_bytes(x)) == x && extended_bytes(x).len() == 10,
        is_sample_rate(x) ==> is_encodable(x),
{
    match x {
        Extended::Nan => {
            lemma_fields(false, 0x7FFF, 0xC000_0000_0000_0000);
        },
        Extended::Infinite { negative } => {
            lemma_fields(negative, 0x7FFF, 0x8000_0000_0000_0000);
        },
        Extended::Finite { negative, mantissa, scale } => {
            if is_encodable(x) {
                lemma_fields(negative, 0, mantissa);
                lemma_fields(negative, scale + 16_383 + 63, mantissa);
            }
        },
    }
}

/// Number of bits by which `m` has more than 53.
pub open spec fn excess_bits(m: u64) -> nat {
    if m < pow2(53) {
        0
    } else if m < pow2(54) {
        1
    } else if m < pow2(55) {
        2
    } else if m < pow2(56) {
        3
    } else if m < pow2(57) {
        4
    } else if m < pow2(58) {
        5
    } else if m < pow2(59) {
        6
    } else if m < pow2(60) {
        7
    } else if m < pow2(61) {
        8
    } else if m < pow2(62) {
        9
    } else if m < pow2(63) {
        10
    } else {
        11
    }
}

/// The integer `n` divided by `d` and rounded to an integer, ties to even.
pub open spec fn rounded_quotient(n: int, d: int) -> int {
    let q = n / d;
    let r = n % d;
    if 2 * r > d || (2 * r == d && q % 2 == 1) {
        q + 1
    } else {
        q
    }
}

/// The double-precision number next to `m`, which is an integer.
pub open spec fn in_double(m: u64) -> int {
    let unit = pow2(excess_bits(m)) as int;
    rounded_quotient(m as int, unit) * unit
}

/// The integer part of `mantissa * 2^scale` in double precision.
pub open spec fn integer_part(mantissa: u64, scale: int) -> int {
    if scale >= 0 {
        in_double(mantissa) * pow2(scale as nat)
    } else {
        in_double(mantissa) / (pow2((-scale) as nat) as int)
    }
}

fn find_excess_bits(m: u64) -> (e: u32)
    ensures
        e == excess_bits(m),
        e <= 11,
{
    proof {
        lemma2_to64();
        lemma2_to64_rest();
    }
    let mut e: u32 = 0;
    let mut limit: u64 = 0x20_0000_0000_0000;
    assert(limit == pow2(53));
    while e < 11 && m >= limit
        invariant
            e <= 11,
            e < 11 ==> limit == pow2((53 + e) as nat),
            e > 0 ==> m >= pow2((52 + e) as nat),
            pow2(53) == 0x20_0000_0000_0000,
            pow2(54) == 0x40_0000_0000_0000,
            pow2(55) == 0x80_0000_0000_0000,
            pow2(56) == 0x100_0000_0000_0000,
            pow2(57) == 0x200_0000_0000_0000,
            pow2(58) == 0x400_0000_0000_0000,
            pow2(59) == 0x800_0000_0000_0000,
            pow2(60) == 0x1000_0000_0000_0000,
            pow2(61) == 0x2000_0000_0000_0000,
            pow2(62) == 0x4000_0000_0000_0000,
            pow2(63) == 0x8000_0000_0000_0000,
        decreases 11 - e,
    {
        proof {
            lemma_pow2_unfold((54 + e) as nat);
        }
        e += 1;
        if e < 11 {
            limit = limit * 2;
        }
    }
    e
}

fn to_double(m: u64) -> (r: u128)
    ensures
        r == in_double(m),
        m > 0 ==> r > 0,
        r <= 0x1_0000_0000_0000_0000,
{
    let e: u32 = find_excess_bits(m);
    let unit: u128 = power_of_two(e);
    proof {
        lemma2_to64();
        lemma2_to64_rest();
    }
    let q: u128 = m as u128 / unit;
    let r: u128 = m as u128 % unit;
    assert(q * unit + r == m) by (nonlinear_arith)
        requires
            q == m as u128 / unit,
            r == m as u128 % unit,
            unit > 0,
    ;
    assert(0 <= q * unit <= m) by (nonlinear_arith)
        requires
            q * unit + r == m,
            r >= 0,
            q >= 0,
            unit > 0,
    ;
    assert((q + 1) * unit == q * unit + unit) by (nonlinear_arith);
    let up: bool = 2 * r > unit || (2 * r == unit && q % 2 == 1);
    if up {
        assert((q + 1) * unit <= 0x1_0000_0000_0000_0000) by {
            lemma_round_up_bound(m as int, unit as int, e as nat, q as int, r as int);
        }
        (q + 1) * unit
    } else {
        q * unit
    }
}

/// Rounding up stays within the next power of two.
proof fn lemma_round_up_bound(m: int, unit: int, e: nat, q: int, r: int)
    requires
        0 <= m < 0x1_0000_0000_0000_0000,
        e <= 11,
        unit == pow2(e),
        m == q * unit + r,
        0 <= r < unit,
        0 <= q,
    ensures
        (q + 1) * unit <= 0x1_0000_0000_0000_0000,
{
    lemma2_to64();
    lemma_pow2_adds((64 - e) as nat, e);
    let k = pow2((64 - e) as nat) as int;
    assert(q < k) by (nonlinear_arith)
        requires
            q * unit <= m < k * unit,
            unit > 0,
    ;
    assert((q + 1) * unit <= k * unit) by (nonlinear_arith)
        requires
            q + 1 <= k,
            unit > 0,
    ;
}

/// Whole sample frames per second, at most `cap`. The fraction of a frame is dropped.
pub fn whole_rate(x: Extended, cap: u64) -> (n: u64)
    requires
        is_sample_rate(x),
    ensures
        ({
            let all = integer_part(x->mantissa, x->scale as int);
            n == if all > cap {
                cap as int
            } else {
                all
            }
        }),
{
    match x {
        Extended::Finite { negative, mantissa, scale } => {
            let m: u128 = to_double(mantissa);
            proof {
                lemma2_to64();
            }
            let all: u128 = if scale >= 64 {
                proof {
                    lemma_large_rate(m as int, scale as nat);
                }
                0x1_0000_0000_0000_0000
            } else if scale >= 0 {
                let p: u128 = power_of_two(scale as u32);
                assert(0 <= m * p <= 0x1_0000_0000_0000_0000 * 0x8000_0000_0000_0000)
                    by (nonlinear_arith)
                    requires
                        0 <= m <= 0x1_0000_0000_0000_0000,
                        0 <= p <= 0x8000_0000_0000_0000,
                ;
                m * p
            } else if scale < -64 {
                proof {
                    lemma_small_rate(m as int, (-scale) as nat);
                }
                0
            } else {
                m / power_of_two((-scale) as u32)
            };
            if all > cap as u128 {
                cap
            } else {
                all as u64
            }
        },
        _ => 0,
    }
}

proof fn lemma_large_rate(m: int, k: nat)
    requires
        m > 0,
        k >= 64,
    ensures
        m * pow2(k) >= 0x1_0000_0000_0000_0000,
{
    lemma2_to64();
    if k > 64 {
        lemma_pow2_strictly_increases(64, k);
    }
    assert(m * pow2(k) >= 0x1_0000_0000_0000_0000) by (nonlinear_arith)
        requires
            m >= 1,
            pow2(k) >= 0x1_0000_0000_0000_0000,
    ;
}

proof fn lemma_small_rate(m: int, k: nat)
    requires
        0 <= m <= 0x1_0000_0000_0000_0000,
        k > 64,
    ensures
        m / (pow2(k) as int) == 0,
{
    lemma2_to64();
    lemma_pow2_strictly_increases(64, k);
    assert(m / (pow2(k) as int) == 0) by (nonlinear_arith)
        requires
            0 <= m < pow2(k),
    ;
}

} // verus!
