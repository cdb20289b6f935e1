//! The common chunk.

use oxideav_iff::aiff::common::parse_pstring;
use oxideav_iff::aiff::{parse_common, AiffError, CommonChunk, Extended};
/// The double-precision number that a number stands for.
fn f64_of(x: Extended) -> f64 {
    match x {
        Extended::Nan => f64::NAN,
        Extended::Infinite { negative } => {
            if negative {
                f64::NEG_INFINITY
            } else {
                f64::INFINITY
            }
        }
        Extended::Finite {
            negative,
            mantissa,
            scale,
        } => {
            let v = mantissa as f64 * 2.0_f64.powi(scale);
            if negative {
                -v
            } else {
                v
            }
        }
    }
}

fn ext(rate: f64) -> [u8; 10] {
    let sign = rate.is_sign_negative();
    let mag = rate.abs();
    let bits = mag.to_bits();
    let f64_exp = ((bits >> 52) & 0x7ff) as i32;
    let f64_frac = bits & 0x000f_ffff_ffff_ffff;
    let (mantissa_64, exp_unbiased): (u64, i32) = if f64_exp == 0 {
        let lead = f64_frac.leading_zeros() as i32 - 11;
        let mantissa = f64_frac << (12 + lead);
        let true_exp = -1022 - lead;
        (mantissa, true_exp)
    } else {
        let mantissa = (1_u64 << 63) | (f64_frac << 11);
        let true_exp = f64_exp - 1023;
        (mantissa, true_exp)
    };
    let biased_ext = exp_unbiased + 16_383;
    let exp_field = biased_ext as u16 & 0x7fff;
    let mut o = [0u8; 10];
    o[0] = ((exp_field >> 8) as u8) | if sign { 0x80 } else { 0 };
    o[1] = (exp_field & 0xff) as u8;
    o[2..10].copy_from_slice(&mantissa_64.to_be_bytes());
    o
}

fn comm_18_bytes(channels: u16, frames: u32, bits: u16, rate: f64) -> Vec<u8> {
    let mut v = Vec::with_capacity(18);
    v.extend_from_slice(&(channels as i16).to_be_bytes());
    v.extend_from_slice(&frames.to_be_bytes());
    v.extend_from_slice(&(bits as i16).to_be_bytes());
    v.extend_from_slice(&ext(rate));
    v
}

#[test]
fn parse_aiff_44100_stereo_16bit() {
    let data = comm_18_bytes(2, 100, 16, 44_100.0);
    let c = parse_common(&data, *b"AIFF").unwrap();
    assert_eq!(c.num_channels, 2);
    assert_eq!(c.num_sample_frames, 100);
    assert_eq!(c.sample_size, 16);
    assert_eq!(f64_of(c.sample_rate), 44_100.0);
    assert_eq!(c.compression_type, None);
    assert_eq!(c.compression_name, None);
    assert!(!c.is_aifc());
    assert_eq!(c.frame_bytes(), 4);
    assert_eq!(c.pcm_payload_bytes(), 400);
}

#[test]
fn parse_aifc_none_with_empty_name() {
    let mut data = comm_18_bytes(1, 50, 16, 48_000.0);
    data.extend_from_slice(b"NONE");
    data.extend_from_slice(&[0x00, 0x00]);
    let c = parse_common(&data, *b"AIFC").unwrap();
    assert_eq!(c.compression_type, Some(*b"NONE"));
    assert_eq!(c.compression_name.as_deref(), Some(""));
    assert_eq!(f64_of(c.sample_rate), 48_000.0);
}

#[test]
fn parse_aifc_sowt_with_name() {
    let mut data = comm_18_bytes(2, 88_200, 16, 44_100.0);
    data.extend_from_slice(b"sowt");
    let name = b"little endian ";
    data.push(name.len() as u8);
    data.extend_from_slice(name);
    let c = parse_common(&data, *b"AIFC").unwrap();
    assert_eq!(c.compression_type, Some(*b"sowt"));
    assert_eq!(c.compression_name.as_deref(), Some("little endian "));
    assert!(c.is_aifc());
}

#[test]
fn rejects_zero_channels() {
    let data = comm_18_bytes(0, 100, 16, 44_100.0);
    assert!(matches!(
        parse_common(&data, *b"AIFF"),
        Err(AiffError::InvalidValue {
            what: "numChannels",
            value: 0
        })
    ));
}

#[test]
fn rejects_zero_sample_size() {
    let data = comm_18_bytes(1, 100, 0, 44_100.0);
    assert!(matches!(
        parse_common(&data, *b"AIFF"),
        Err(AiffError::InvalidSampleSize(0))
    ));
}

#[test]
fn rejects_sample_size_above_32() {
    let data = comm_18_bytes(1, 100, 33, 44_100.0);
    assert!(matches!(
        parse_common(&data, *b"AIFF"),
        Err(AiffError::InvalidSampleSize(33))
    ));
}

#[test]
fn rejects_short_aiff_comm() {
    let data = vec![0u8; 17];
    assert!(matches!(
        parse_common(&data, *b"AIFF"),
        Err(AiffError::CommTooShort { .. })
    ));
}

#[test]
fn rejects_short_aifc_comm() {
    let data = comm_18_bytes(1, 100, 16, 44_100.0);
    assert!(matches!(
        parse_common(&data, *b"AIFC"),
        Err(AiffError::CommTooShort { .. })
    ));
}

#[test]
fn common_rejects_unknown_form_type() {
    let data = comm_18_bytes(1, 100, 16, 44_100.0);
    assert!(matches!(
        parse_common(&data, *b"WAVE"),
        Err(AiffError::UnknownFormType { found: f }) if f == *b"WAVE"
    ));
}

#[test]
fn frame_bytes_rounds_sample_size_up() {
    let mut data = comm_18_bytes(1, 10, 12, 44_100.0);
    data.extend_from_slice(b"");
    let c = parse_common(&data, *b"AIFF").unwrap();
    assert_eq!(c.frame_bytes(), 2);

    let mut data = comm_18_bytes(2, 10, 24, 48_000.0);
    data.extend_from_slice(b"");
    let c = parse_common(&data, *b"AIFF").unwrap();
    assert_eq!(c.frame_bytes(), 6);
}

#[test]
fn parse_pstring_empty() {
    let s = parse_pstring(&[0x00, 0x00]).unwrap();
    assert_eq!(s, "");
}

#[test]
fn parse_pstring_truncated_length() {
    assert!(matches!(parse_pstring(&[]), Err(AiffError::Truncated(_))));
}

#[test]
fn parse_pstring_truncated_body() {
    assert!(matches!(
        parse_pstring(&[5, b'A', b'B', b'C']),
        Err(AiffError::Truncated(_))
    ));
}
