//! Whole AIFF files.

use oxideav_iff::aiff::{parse, AiffError, Extended};
/// The double-precision number that a number stands for.
fn f64_of(x: Extended) -> f64 {
    match x {
        Extended::Nan => f64::NAN,
        Extended::Infinite { negative } => {
            if negative {
                f64::NEG_INFINITY
            } else {
                f64::INFINITY
            }
        }
        Extended::Finite {
            negative,
            mantissa,
            scale,
        } => {
            let v = mantissa as f64 * 2.0_f64.powi(scale);
            if negative {
                -v
            } else {
                v
            }
        }
    }
}

fn ext(rate: f64) -> [u8; 10] {
    let sign = rate.is_sign_negative();
    let mag = rate.abs();
    let bits = mag.to_bits();
    let f64_exp = ((bits >> 52) & 0x7ff) as i32;
    let f64_frac = bits & 0x000f_ffff_ffff_ffff;
    let (mantissa_64, exp_unbiased): (u64, i32) = if f64_exp == 0 {
        let lead = f64_frac.leading_zeros() as i32 - 11;
        let mantissa = f64_frac << (12 + lead);
        let true_exp = -1022 - lead;
        (mantissa, true_exp)
    } else {
        let mantissa = (1_u64 << 63) | (f64_frac << 11);
        let true_exp = f64_exp - 1023;
        (mantissa, true_exp)
    };
    let biased_ext = exp_unbiased + 16_383;
    let exp_field = biased_ext as u16 & 0x7fff;
    let mut o = [0u8; 10];
    o[0] = ((exp_field >> 8) as u8) | if sign { 0x80 } else { 0 };
    o[1] = (exp_field & 0xff) as u8;
    o[2..10].copy_from_slice(&mantissa_64.to_be_bytes());
    o
}

fn pack(id: &[u8; 4], data: &[u8]) -> Vec<u8> {
    let mut v = Vec::with_capacity(8 + data.len() + 1);
    v.extend_from_slice(id);
    v.extend_from_slice(&(data.len() as u32).to_be_bytes());
    v.extend_from_slice(data);
    if data.len() % 2 == 1 {
        v.push(0);
    }
    v
}

fn build_aiff_file(
    channels: u16,
    frames: u32,
    bits: u16,
    rate: f64,
    samples: &[u8],
) -> Vec<u8> {
    let mut comm_body = Vec::new();
    comm_body.extend_from_slice(&(channels as i16).to_be_bytes());
    comm_body.extend_from_slice(&frames.to_be_bytes());
    comm_body.extend_from_slice(&(bits as i16).to_be_bytes());
    comm_body.extend_from_slice(&ext(rate));

    let mut ssnd_body = Vec::new();
    ssnd_body.extend_from_slice(&0_u32.to_be_bytes());
    ssnd_body.extend_from_slice(&0_u32.to_be_bytes());
    ssnd_body.extend_from_slice(samples);

    let mut inner = Vec::new();
    inner.extend_from_slice(b"AIFF");
    inner.extend_from_slice(&pack(b"COMM", &comm_body));
    inner.extend_from_slice(&pack(b"SSND", &ssnd_body));

    let mut file = Vec::new();
    file.extend_from_slice(b"FORM");
    file.extend_from_slice(&(inner.len() as u32).to_be_bytes());
    file.extend_from_slice(&inner);
    file
}

fn build_aifc_file(
    channels: u16,
    frames: u32,
    bits: u16,
    rate: f64,
    compression: &[u8; 4],
    compression_name: &str,
    samples: &[u8],
) -> Vec<u8> {
    let mut comm_body = Vec::new();
    comm_body.extend_from_slice(&(channels as i16).to_be_bytes());
    comm_body.extend_from_slice(&frames.to_be_bytes());
    comm_body.extend_from_slice(&(bits as i16).to_be_bytes());
    comm_body.extend_from_slice(&ext(rate));
    comm_body.extend_from_slice(compression);
    comm_body.push(compression_name.len() as u8);
    comm_body.extend_from_slice(compression_name.as_bytes());
    if (1 + compression_name.len()) % 2 == 1 {
        comm_body.push(0);
    }

    let mut ssnd_body = Vec::new();
    ssnd_body.extend_from_slice(&0_u32.to_be_bytes());
    ssnd_body.extend_from_slice(&0_u32.to_be_bytes());
    ssnd_body.extend_from_slice(samples);

    let fver_body = 0xA280_5140_u32.to_be_bytes();

    let mut inner = Vec::new();
    inner.extend_from_slice(b"AIFC");
    inner.extend_from_slice(&pack(b"FVER", &fver_body));
    inner.extend_from_slice(&pack(b"COMM", &comm_body));
    inner.extend_from_slice(&pack(b"SSND", &ssnd_body));

    let mut file = Vec::new();
    file.extend_from_slice(b"FORM");
    file.extend_from_slice(&(inner.len() as u32).to_be_bytes());
    file.extend_from_slice(&inner);
    file
}

#[test]
fn parse_minimal_aiff() {
    let pcm: [u8; 8] = [0x00, 0x01, 0xff, 0xff, 0x12, 0x34, 0xfe, 0xdc];
    let f = build_aiff_file(2, 2, 16, 44_100.0, &pcm);
    let parsed = parse(&f).unwrap();
    assert_eq!(&parsed.form_type, b"AIFF");
    assert_eq!(parsed.common.num_channels, 2);
    assert_eq!(parsed.common.num_sample_frames, 2);
    assert_eq!(parsed.common.sample_size, 16);
    assert_eq!(f64_of(parsed.common.sample_rate), 44_100.0);
    assert_eq!(parsed.sound.as_ref().unwrap().samples, &pcm);
    assert_eq!(parsed.fver_timestamp, None);
}

#[test]
fn parse_minimal_aifc_none() {
    let pcm: [u8; 4] = [0x12, 0x34, 0x56, 0x78];
    let f = build_aifc_file(1, 2, 16, 48_000.0, b"NONE", "not compressed", &pcm);
    let parsed = parse(&f).unwrap();
    assert_eq!(&parsed.form_type, b"AIFC");
    assert_eq!(parsed.common.compression_type, Some(*b"NONE"));
    assert_eq!(
        parsed.common.compression_name.as_deref(),
        Some("not compressed")
    );
    assert_eq!(parsed.sound.as_ref().unwrap().samples, &pcm);
    assert_eq!(parsed.fver_timestamp, Some(0xA280_5140));
}

#[test]
fn parse_minimal_aifc_sowt() {
    let pcm: [u8; 4] = [0x78, 0x56, 0x34, 0x12];
    let f = build_aifc_file(1, 2, 16, 44_100.0, b"sowt", "", &pcm);
    let parsed = parse(&f).unwrap();
    assert_eq!(parsed.common.compression_type, Some(*b"sowt"));
    assert_eq!(parsed.sound.as_ref().unwrap().samples, &pcm);
}

#[test]
fn rejects_not_form() {
    let mut f = build_aiff_file(1, 0, 16, 44_100.0, &[]);
    f[0] = b'X';
    let r = parse(&f);
    assert!(matches!(r, Err(AiffError::NotForm { .. })));
}

#[test]
fn form_rejects_unknown_form_type() {
    let mut f = build_aiff_file(1, 0, 16, 44_100.0, &[]);
    f[8..12].copy_from_slice(b"WAVE");
    let r = parse(&f);
    assert!(matches!(r, Err(AiffError::UnknownFormType { .. })));
}

#[test]
fn rejects_missing_comm() {
    let mut inner = Vec::new();
    inner.extend_from_slice(b"AIFF");
    let mut f = Vec::new();
    f.extend_from_slice(b"FORM");
    f.extend_from_slice(&(inner.len() as u32).to_be_bytes());
    f.extend_from_slice(&inner);
    let r = parse(&f);
    assert!(matches!(r, Err(AiffError::MissingChunk("COMM"))));
}

#[test]
fn rejects_missing_ssnd_when_frames_nonzero() {
    let mut comm_body = Vec::new();
    comm_body.extend_from_slice(&1_i16.to_be_bytes());
    comm_body.extend_from_slice(&10_u32.to_be_bytes());
    comm_body.extend_from_slice(&16_i16.to_be_bytes());
    comm_body.extend_from_slice(&ext(44_100.0));

    let mut inner = Vec::new();
    inner.extend_from_slice(b"AIFF");
    inner.extend_from_slice(&pack(b"COMM", &comm_body));
    let mut f = Vec::new();
    f.extend_from_slice(b"FORM");
    f.extend_from_slice(&(inner.len() as u32).to_be_bytes());
    f.extend_from_slice(&inner);
    let r = parse(&f);
    assert!(matches!(r, Err(AiffError::MissingChunk("SSND"))));
}

#[test]
fn allows_missing_ssnd_when_zero_frames() {
    let mut comm_body = Vec::new();
    comm_body.extend_from_slice(&1_i16.to_be_bytes());
    comm_body.extend_from_slice(&0_u32.to_be_bytes());
    comm_body.extend_from_slice(&16_i16.to_be_bytes());
    comm_body.extend_from_slice(&ext(44_100.0));

    let mut inner = Vec::new();
    inner.extend_from_slice(b"AIFF");
    inner.extend_from_slice(&pack(b"COMM", &comm_body));
    let mut f = Vec::new();
    f.extend_from_slice(b"FORM");
    f.extend_from_slice(&(inner.len() as u32).to_be_bytes());
    f.extend_from_slice(&inner);
    let parsed = parse(&f).unwrap();
    assert_eq!(parsed.common.num_sample_frames, 0);
    assert!(parsed.sound.is_none());
}

#[test]
fn parses_ssnd_with_nonzero_offset() {
    let mut ssnd_body = Vec::new();
    ssnd_body.extend_from_slice(&6_u32.to_be_bytes());
    ssnd_body.extend_from_slice(&0_u32.to_be_bytes());
    ssnd_body.extend_from_slice(&[0u8; 6]);
    ssnd_body.extend_from_slice(&[0xAA, 0xBB, 0xCC, 0xDD]);

    let mut comm_body = Vec::new();
    comm_body.extend_from_slice(&1_i16.to_be_bytes());
    comm_body.extend_from_slice(&2_u32.to_be_bytes());
    comm_body.extend_from_slice(&16_i16.to_be_bytes());
    comm_body.extend_from_slice(&ext(44_100.0));

    let mut inner = Vec::new();
    inner.extend_from_slice(b"AIFF");
    inner.extend_from_slice(&pack(b"COMM", &comm_body));
    inner.extend_from_slice(&pack(b"SSND", &ssnd_body));
    let mut f = Vec::new();
    f.extend_from_slice(b"FORM");
    f.extend_from_slice(&(inner.len() as u32).to_be_bytes());
    f.extend_from_slice(&inner);

    let parsed = parse(&f).unwrap();
    let snd = parsed.sound.as_ref().unwrap();
    assert_eq!(snd.offset, 6);
    assert_eq!(snd.samples, &[0xAA, 0xBB, 0xCC, 0xDD]);
}

#[test]
fn truncated_file_errors() {
    assert!(matches!(parse(&[0u8; 3]), Err(AiffError::Truncated(_))));
}

#[test]
fn chunks_can_appear_in_any_order() {
    let pcm = [0x11_u8, 0x22, 0x33, 0x44];
    let mut comm_body = Vec::new();
    comm_body.extend_from_slice(&1_i16.to_be_bytes());
    comm_body.extend_from_slice(&2_u32.to_be_bytes());
    comm_body.extend_from_slice(&16_i16.to_be_bytes());
    comm_body.extend_from_slice(&ext(44_100.0));
    comm_body.extend_from_slice(b"NONE");
    comm_body.push(0);
    comm_body.push(0);

    let mut ssnd_body = Vec::new();
    ssnd_body.extend_from_slice(&0_u32.to_be_bytes());
    ssnd_body.extend_from_slice(&0_u32.to_be_bytes());
    ssnd_body.extend_from_slice(&pcm);

    let fver_body = 0xA280_5140_u32.to_be_bytes();

    let mut inner = Vec::new();
    inner.extend_from_slice(b"AIFC");
    inner.extend_from_slice(&pack(b"SSND", &ssnd_body));
    inner.extend_from_slice(&pack(b"COMM", &comm_body));
    inner.extend_from_slice(&pack(b"FVER", &fver_body));
    let mut f = Vec::new();
    f.extend_from_slice(b"FORM");
    f.extend_from_slice(&(inner.len() as u32).to_be_bytes());
    f.extend_from_slice(&inner);

    let parsed = parse(&f).unwrap();
    assert_eq!(&parsed.form_type, b"AIFC");
    assert_eq!(parsed.common.compression_type, Some(*b"NONE"));
    assert_eq!(parsed.sound.as_ref().unwrap().samples, &pcm);
    assert_eq!(parsed.fver_timestamp, Some(0xA280_5140));
}

fn build_mark_chunk(markers: &[(i16, u32, &str)]) -> Vec<u8> {
    let mut body = Vec::new();
    body.extend_from_slice(&(markers.len() as u16).to_be_bytes());
    for (id, pos, name) in markers {
        body.extend_from_slice(&id.to_be_bytes());
        body.extend_from_slice(&pos.to_be_bytes());
        body.push(name.len() as u8);
        body.extend_from_slice(name.as_bytes());
        if (1 + name.len()) % 2 == 1 {
            body.push(0);
        }
    }
    body
}

#[test]
fn parses_form_with_marker_chunk() {
    let pcm = [0x00_u8, 0x01, 0x02, 0x03];
    let mut comm_body = Vec::new();
    comm_body.extend_from_slice(&1_i16.to_be_bytes());
    comm_body.extend_from_slice(&2_u32.to_be_bytes());
    comm_body.extend_from_slice(&16_i16.to_be_bytes());
    comm_body.extend_from_slice(&ext(44_100.0));

    let mut ssnd_body = Vec::new();
    ssnd_body.extend_from_slice(&0_u32.to_be_bytes());
    ssnd_body.extend_from_slice(&0_u32.to_be_bytes());
    ssnd_body.extend_from_slice(&pcm);

    let mark_body = build_mark_chunk(&[(1, 0, "begin"), (2, 1, "end")]);

    let mut inner = Vec::new();
    inner.extend_from_slice(b"AIFF");
    inner.extend_from_slice(&pack(b"COMM", &comm_body));
    inner.extend_from_slice(&pack(b"MARK", &mark_body));
    inner.extend_from_slice(&pack(b"SSND", &ssnd_body));
    let mut f = Vec::new();
    f.extend_from_slice(b"FORM");
    f.extend_from_slice(&(inner.len() as u32).to_be_bytes());
    f.extend_from_slice(&inner);

    let parsed = parse(&f).unwrap();
    let marks = parsed.markers.as_ref().unwrap();
    assert_eq!(marks.markers.len(), 2);
    assert_eq!(marks.markers[0].id, 1);
    assert_eq!(marks.markers[0].position, 0);
    assert_eq!(marks.markers[0].name, "begin");
    assert_eq!(marks.markers[1].id, 2);
    assert_eq!(marks.markers[1].position, 1);
    assert_eq!(marks.markers[1].name, "end");
    assert_eq!(parsed.sound.as_ref().unwrap().samples, &pcm);
}

#[test]
fn rejects_duplicate_mark_chunks() {
    let pcm = [0x00_u8, 0x01];
    let mut comm_body = Vec::new();
    comm_body.extend_from_slice(&1_i16.to_be_bytes());
    comm_body.extend_from_slice(&1_u32.to_be_bytes());
    comm_body.extend_from_slice(&16_i16.to_be_bytes());
    comm_body.extend_from_slice(&ext(44_100.0));

    let mut ssnd_body = Vec::new();
    ssnd_body.extend_from_slice(&0_u32.to_be_bytes());
    ssnd_body.extend_from_slice(&0_u32.to_be_bytes());
    ssnd_body.extend_from_slice(&pcm);

    let mark_body_a = build_mark_chunk(&[(1, 0, "first")]);
    let mark_body_b = build_mark_chunk(&[(2, 0, "second")]);

    let mut inner = Vec::new();
    inner.extend_from_slice(b"AIFF");
    inner.extend_from_slice(&pack(b"COMM", &comm_body));
    inner.extend_from_slice(&pack(b"MARK", &mark_body_a));
    inner.extend_from_slice(&pack(b"MARK", &mark_body_b));
    inner.extend_from_slice(&pack(b"SSND", &ssnd_body));
    let mut f = Vec::new();
    f.extend_from_slice(b"FORM");
    f.extend_from_slice(&(inner.len() as u32).to_be_bytes());
    f.extend_from_slice(&inner);

    assert!(matches!(parse(&f), Err(AiffError::DuplicateChunk("MARK"))));
}

#[test]
fn form_without_mark_chunk_has_none_markers() {
    let f = build_aiff_file(1, 1, 16, 44_100.0, &[0x00, 0x01]);
    let parsed = parse(&f).unwrap();
    assert!(parsed.markers.is_none());
}

#[test]
fn aifc_with_empty_marker_list_yields_some_empty() {
    let pcm = [0x12_u8, 0x34];
    let mut comm_body = Vec::new();
    comm_body.extend_from_slice(&1_i16.to_be_bytes());
    comm_body.extend_from_slice(&1_u32.to_be_bytes());
    comm_body.extend_from_slice(&16_i16.to_be_bytes());
    comm_body.extend_from_slice(&ext(44_100.0));
    comm_body.extend_from_slice(b"NONE");
    comm_body.push(0);
    comm_body.push(0);

    let mut ssnd_body = Vec::new();
    ssnd_body.extend_from_slice(&0_u32.to_be_bytes());
    ssnd_body.extend_from_slice(&0_u32.to_be_bytes());
    ssnd_body.extend_from_slice(&pcm);

    let fver_body = 0xA280_5140_u32.to_be_bytes();
    let mark_body: Vec<u8> = 0_u16.to_be_bytes().to_vec();

    let mut inner = Vec::new();
    inner.extend_from_slice(b"AIFC");
    inner.extend_from_slice(&pack(b"FVER", &fver_body));
    inner.extend_from_slice(&pack(b"COMM", &comm_body));
    inner.extend_from_slice(&pack(b"MARK", &mark_body));
    inner.extend_from_slice(&pack(b"SSND", &ssnd_body));
    let mut f = Vec::new();
    f.extend_from_slice(b"FORM");
    f.extend_from_slice(&(inner.len() as u32).to_be_bytes());
    f.extend_from_slice(&inner);

    let parsed = parse(&f).unwrap();
    let marks = parsed.markers.as_ref().unwrap();
    assert!(marks.markers.is_empty());
}

#[test]
fn unknown_chunks_are_skipped() {
    let pcm = [0xAA_u8, 0xBB, 0xCC, 0xDD];
    let mut comm_body = Vec::new();
    comm_body.extend_from_slice(&1_i16.to_be_bytes());
    comm_body.extend_from_slice(&2_u32.to_be_bytes());
    comm_body.extend_from_slice(&16_i16.to_be_bytes());
    comm_body.extend_from_slice(&ext(44_100.0));

    let mut ssnd_body = Vec::new();
    ssnd_body.extend_from_slice(&0_u32.to_be_bytes());
    ssnd_body.extend_from_slice(&0_u32.to_be_bytes());
    ssnd_body.extend_from_slice(&pcm);

    let anno_body = b"hello world";
    let zzzz_body = b"some-bytes";

    let mut inner = Vec::new();
    inner.extend_from_slice(b"AIFF");
    inner.extend_from_slice(&pack(b"COMM", &comm_body));
    inner.extend_from_slice(&pack(b"ANNO", anno_body));
    inner.extend_from_slice(&pack(b"ZZZZ", zzzz_body));
    inner.extend_from_slice(&pack(b"SSND", &ssnd_body));
    let mut f = Vec::new();
    f.extend_from_slice(b"FORM");
    f.extend_from_slice(&(inner.len() as u32).to_be_bytes());
    f.extend_from_slice(&inner);

    let parsed = parse(&f).unwrap();
    assert_eq!(parsed.sound.as_ref().unwrap().samples, &pcm);
}
