//! 80-bit numbers.

use oxideav_iff::aiff::{decode_extended, decode_sample_rate, AiffError, Extended};
/// The double-precision number that a number stands for.
fn f64_of(x: Extended) -> f64 {
    match x {
        Extended::Nan => f64::NAN,
        Extended::Infinite { negative } => {
            if negative {
                f64::NEG_INFINITY
            } else {
                f64::INFINITY
            }
        }
        Extended::Finite {
            negative,
            mantissa,
            scale,
        } => {
            let v = mantissa as f64 * 2.0_f64.powi(scale);
            if negative {
                -v
            } else {
                v
            }
        }
    }
}

fn encode_extended(v: f64) -> [u8; 10] {
    if v.is_nan() {
        return [0x7f, 0xff, 0xc0, 0x00, 0x00, 0x00, 0x00, 0x00, 0x00, 0x00];
    }
    if v == 0.0 {
        let mut o = [0u8; 10];
        if v.is_sign_negative() {
            o[0] = 0x80;
        }
        return o;
    }
    let sign = v.is_sign_negative();
    let mag = v.abs();
    if mag.is_infinite() {
        let mut o = [0u8; 10];
        o[0] = if sign { 0xff } else { 0x7f };
        o[1] = 0xff;
        return o;
    }
    let bits = mag.to_bits();
    let f64_exp = ((bits >> 52) & 0x7ff) as i32;
    let f64_frac = bits & 0x000f_ffff_ffff_ffff;
    let (mantissa_64, exp_unbiased): (u64, i32) = if f64_exp == 0 {
        let lead = f64_frac.leading_zeros() as i32 - 11;
        let mantissa = f64_frac << (12 + lead);
        let true_exp = -1022 - lead;
        (mantissa, true_exp)
    } else {
        let mantissa = (1_u64 << 63) | (f64_frac << 11);
        let true_exp = f64_exp - 1023;
        (mantissa, true_exp)
    };
    let biased_ext = exp_unbiased + 16_383;
    let exp_field = biased_ext as u16 & 0x7fff;
    let mut o = [0u8; 10];
    o[0] = ((exp_field >> 8) as u8) | if sign { 0x80 } else { 0 };
    o[1] = (exp_field & 0xff) as u8;
    o[2..10].copy_from_slice(&mantissa_64.to_be_bytes());
    o
}

#[test]
fn decode_zero_is_zero() {
    assert_eq!(f64_of(decode_extended([0; 10])), 0.0);
}

#[test]
fn decode_neg_zero_is_neg_zero() {
    let mut b = [0u8; 10];
    b[0] = 0x80;
    let v = f64_of(decode_extended(b));
    assert_eq!(v, 0.0);
    assert!(v.is_sign_negative());
}

#[test]
fn decode_one() {
    let bytes = [0x3f, 0xff, 0x80, 0x00, 0x00, 0x00, 0x00, 0x00, 0x00, 0x00];
    assert_eq!(f64_of(decode_extended(bytes)), 1.0);
}

#[test]
fn decode_two() {
    let bytes = [0x40, 0x00, 0x80, 0x00, 0x00, 0x00, 0x00, 0x00, 0x00, 0x00];
    assert_eq!(f64_of(decode_extended(bytes)), 2.0);
}

#[test]
fn decode_half() {
    let bytes = [0x3f, 0xfe, 0x80, 0x00, 0x00, 0x00, 0x00, 0x00, 0x00, 0x00];
    assert_eq!(f64_of(decode_extended(bytes)), 0.5);
}

#[test]
fn decode_negative_one() {
    let bytes = [0xbf, 0xff, 0x80, 0x00, 0x00, 0x00, 0x00, 0x00, 0x00, 0x00];
    assert_eq!(f64_of(decode_extended(bytes)), -1.0);
}

#[test]
fn decode_44100_hz() {
    let bytes = encode_extended(44100.0);
    assert_eq!(f64_of(decode_extended(bytes)), 44100.0);
}

#[test]
fn decode_round_trip_common_rates() {
    for rate in [
        8_000.0, 11_025.0, 16_000.0, 22_050.0, 24_000.0, 32_000.0, 44_100.0, 48_000.0,
        88_200.0, 96_000.0, 176_400.0, 192_000.0,
    ] {
        let enc = encode_extended(rate);
        let dec = f64_of(decode_extended(enc));
        assert!(
            (dec - rate).abs() < 1e-9,
            "rate {rate} decoded to {dec} via {enc:?}"
        );
    }
}

#[test]
fn decode_infinity() {
    let bytes = [0x7f, 0xff, 0x00, 0x00, 0x00, 0x00, 0x00, 0x00, 0x00, 0x00];
    assert_eq!(f64_of(decode_extended(bytes)), f64::INFINITY);
}

#[test]
fn decode_neg_infinity() {
    let bytes = [0xff, 0xff, 0x00, 0x00, 0x00, 0x00, 0x00, 0x00, 0x00, 0x00];
    assert_eq!(f64_of(decode_extended(bytes)), f64::NEG_INFINITY);
}

#[test]
fn decode_nan() {
    let bytes = [0x7f, 0xff, 0x40, 0x00, 0x00, 0x00, 0x00, 0x00, 0x00, 0x00];
    assert!(f64_of(decode_extended(bytes)).is_nan());
}

#[test]
fn sample_rate_rejects_nan() {
    let bytes = [0x7f, 0xff, 0x40, 0x00, 0x00, 0x00, 0x00, 0x00, 0x00, 0x00];
    assert!(matches!(
        decode_sample_rate(bytes),
        Err(AiffError::InvalidSampleRate)
    ));
}

#[test]
fn sample_rate_rejects_inf() {
    let bytes = [0x7f, 0xff, 0x00, 0x00, 0x00, 0x00, 0x00, 0x00, 0x00, 0x00];
    assert!(matches!(
        decode_sample_rate(bytes),
        Err(AiffError::InvalidSampleRate)
    ));
}

#[test]
fn sample_rate_rejects_zero() {
    let bytes = [0u8; 10];
    assert!(matches!(
        decode_sample_rate(bytes),
        Err(AiffError::InvalidSampleRate)
    ));
}

#[test]
fn sample_rate_rejects_negative() {
    let bytes = encode_extended(-48_000.0);
    assert!(matches!(
        decode_sample_rate(bytes),
        Err(AiffError::InvalidSampleRate)
    ));
}

#[test]
fn sample_rate_accepts_44_1k() {
    let bytes = encode_extended(44_100.0);
    assert_eq!(f64_of(decode_sample_rate(bytes).unwrap()), 44_100.0);
}
