//! Sound data without compression.

use oxideav_iff::aiff::{
    decode_pcm, is_pcm_compression, AiffError, CommonChunk, Extended, PcmSamples,
};
fn common(channels: u16, frames: u32, bits: u16, ct: Option<[u8; 4]>) -> CommonChunk {
    CommonChunk {
        num_channels: channels,
        num_sample_frames: frames,
        sample_size: bits,
        sample_rate: Extended::Finite {
            negative: false,
            mantissa: 44_100,
            scale: 0,
        },
        compression_type: ct,
        compression_name: ct.map(|_| String::new()),
    }
}

#[test]
fn none_16bit_stereo_be() {
    let payload: [u8; 8] = [0x00, 0x01, 0xff, 0xff, 0x7f, 0xff, 0x80, 0x00];
    let c = common(2, 2, 16, Some(*b"NONE"));
    let pcm = decode_pcm(&c, &payload).unwrap();
    match pcm {
        PcmSamples::I32(p) => {
            assert_eq!(p[0], vec![0x0001_0000, 0x7fff_0000]);
            assert_eq!(p[1], vec![-0x0001_0000, -0x8000_0000]);
        }
        _ => panic!("expected I32"),
    }
}

#[test]
fn twos_is_synonym_for_none() {
    let payload: [u8; 4] = [0x00, 0x01, 0xff, 0xff];
    let c_none = common(1, 2, 16, Some(*b"NONE"));
    let c_twos = common(1, 2, 16, Some(*b"twos"));
    let a = decode_pcm(&c_none, &payload).unwrap();
    let b = decode_pcm(&c_twos, &payload).unwrap();
    assert_eq!(a, b);
}

#[test]
fn sowt_swaps_byte_order() {
    let payload: [u8; 8] = [0x01, 0x00, 0xff, 0xff, 0xff, 0x7f, 0x00, 0x80];
    let c = common(2, 2, 16, Some(*b"sowt"));
    let pcm = decode_pcm(&c, &payload).unwrap();
    match pcm {
        PcmSamples::I32(p) => {
            assert_eq!(p[0], vec![0x0001_0000, 0x7fff_0000]);
            assert_eq!(p[1], vec![-0x0001_0000, -0x8000_0000]);
        }
        _ => panic!("expected I32"),
    }
}

#[test]
fn raw_is_unsigned_offset_binary() {
    let payload: [u8; 3] = [0x80, 0xff, 0x00];
    let c = common(1, 3, 8, Some(*b"raw "));
    let pcm = decode_pcm(&c, &payload).unwrap();
    match pcm {
        PcmSamples::I32(p) => {
            assert_eq!(p[0], vec![0, 127 << 24, -128 << 24]);
        }
        _ => panic!("expected I32"),
    }
}

#[test]
fn fl32_round_trip() {
    let mut payload = Vec::new();
    payload.extend_from_slice(&1.0_f32.to_be_bytes());
    payload.extend_from_slice(&(-0.5_f32).to_be_bytes());
    let c = common(1, 2, 32, Some(*b"fl32"));
    let pcm = decode_pcm(&c, &payload).unwrap();
    match pcm {
        PcmSamples::F32(p) => {
            assert_eq!(p[0], vec![1.0_f32.to_bits(), (-0.5_f32).to_bits()]);
        }
        _ => panic!("expected F32"),
    }
}

#[test]
fn fl32_uppercase_variant_also_works() {
    let mut payload = Vec::new();
    payload.extend_from_slice(&0.25_f32.to_be_bytes());
    let c = common(1, 1, 32, Some(*b"FL32"));
    let pcm = decode_pcm(&c, &payload).unwrap();
    match pcm {
        PcmSamples::F32(p) => assert_eq!(p[0], vec![0.25_f32.to_bits()]),
        _ => panic!("expected F32"),
    }
}

#[test]
fn fl64_round_trip() {
    let mut payload = Vec::new();
    payload.extend_from_slice(&1.0_f64.to_be_bytes());
    payload.extend_from_slice(&(-0.25_f64).to_be_bytes());
    let c = common(1, 2, 64, Some(*b"fl64"));
    let pcm = decode_pcm(&c, &payload).unwrap();
    match pcm {
        PcmSamples::F64(p) => assert_eq!(p[0], vec![1.0_f64.to_bits(), (-0.25_f64).to_bits()]),
        _ => panic!("expected F64"),
    }
}

#[test]
fn unsupported_compression_errors() {
    let c = common(1, 1, 16, Some(*b"ima4"));
    let payload = vec![0u8; 64];
    let r = decode_pcm(&c, &payload);
    assert!(matches!(
        r,
        Err(AiffError::UnsupportedPcmCompression(ct)) if ct == *b"ima4"
    ));
}

#[test]
fn aiff_v1_3_treated_as_none() {
    let payload: [u8; 4] = [0x00, 0x01, 0xff, 0xff];
    let c = common(1, 2, 16, None);
    let pcm = decode_pcm(&c, &payload).unwrap();
    match pcm {
        PcmSamples::I32(p) => {
            assert_eq!(p[0], vec![0x0001_0000, -0x0001_0000]);
        }
        _ => panic!("expected I32"),
    }
}

#[test]
fn frames_truncate_to_payload_when_short() {
    let payload: [u8; 4] = [0x00, 0x10, 0xff, 0xf0];
    let c = common(1, 4, 16, Some(*b"NONE"));
    let pcm = decode_pcm(&c, &payload).unwrap();
    match pcm {
        PcmSamples::I32(p) => assert_eq!(p[0].len(), 2),
        _ => panic!("expected I32"),
    }
}

#[test]
fn unaligned_short_payload_errors() {
    let payload = [0x00_u8, 0x01, 0xff];
    let c = common(2, 2, 16, Some(*b"NONE"));
    let r = decode_pcm(&c, &payload);
    assert!(matches!(r, Err(AiffError::SsndUnaligned { .. })));
}

#[test]
fn raw_rejects_non_8bit_sample_size() {
    let c = common(1, 1, 16, Some(*b"raw "));
    let r = decode_pcm(&c, &[0u8, 0]);
    assert!(matches!(r, Err(AiffError::InvalidValue { .. })));
}

#[test]
fn is_pcm_compression_matrix() {
    for ct in [
        b"NONE", b"twos", b"sowt", b"raw ", b"fl32", b"FL32", b"fl64", b"FL64",
    ] {
        assert!(is_pcm_compression(*ct));
    }
    for ct in [b"ima4", b"alaw", b"ulaw", b"GSM ", b"G722", b"MAC3"] {
        assert!(!is_pcm_compression(*ct));
    }
}

#[test]
fn channels_and_frames_accessors() {
    let pcm = PcmSamples::I32(vec![vec![1, 2, 3], vec![4, 5, 6]]);
    assert_eq!(pcm.channels(), 2);
    assert_eq!(pcm.frames(), 3);

    let pcm = PcmSamples::F32(vec![vec![]]);
    assert_eq!(pcm.channels(), 1);
    assert_eq!(pcm.frames(), 0);
}

#[test]
fn eightbit_be_round_trips_through_padding() {
    let payload = [0x7f_u8, 0x80, 0x00];
    let c = common(1, 3, 8, Some(*b"NONE"));
    let pcm = decode_pcm(&c, &payload).unwrap();
    match pcm {
        PcmSamples::I32(p) => {
            assert_eq!(p[0], vec![127 << 24, -128 << 24, 0]);
        }
        _ => panic!("expected I32"),
    }
}

#[test]
fn twenty_four_bit_be_round_trip() {
    let payload = [0x01_u8, 0x02, 0x03, 0xfe, 0xfd, 0xfc];
    let c = common(1, 2, 24, Some(*b"NONE"));
    let pcm = decode_pcm(&c, &payload).unwrap();
    match pcm {
        PcmSamples::I32(p) => {
            assert_eq!(p[0][0], 0x0102_0300);
            assert_eq!(p[0][1], 0xfefd_fc00u32 as i32);
        }
        _ => panic!("expected I32"),
    }
}
