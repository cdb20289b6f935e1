//! Opening AIFF files.

use oxideav_iff::aiff::demuxer::{probe, SampleFormat};
use oxideav_iff::aiff::{make_demuxer, AiffDemuxer};
fn ext(rate: f64) -> [u8; 10] {
    let sign = rate.is_sign_negative();
    let mag = rate.abs();
    let bits = mag.to_bits();
    let f64_exp = ((bits >> 52) & 0x7ff) as i32;
    let f64_frac = bits & 0x000f_ffff_ffff_ffff;
    let (mantissa_64, exp_unbiased): (u64, i32) = if f64_exp == 0 {
        let lead = f64_frac.leading_zeros() as i32 - 11;
        let mantissa = f64_frac << (12 + lead);
        let true_exp = -1022 - lead;
        (mantissa, true_exp)
    } else {
        let mantissa = (1_u64 << 63) | (f64_frac << 11);
        let true_exp = f64_exp - 1023;
        (mantissa, true_exp)
    };
    let biased_ext = exp_unbiased + 16_383;
    let exp_field = biased_ext as u16 & 0x7fff;
    let mut o = [0u8; 10];
    o[0] = ((exp_field >> 8) as u8) | if sign { 0x80 } else { 0 };
    o[1] = (exp_field & 0xff) as u8;
    o[2..10].copy_from_slice(&mantissa_64.to_be_bytes());
    o
}

fn pack(id: &[u8; 4], data: &[u8]) -> Vec<u8> {
    let mut v = Vec::with_capacity(8 + data.len() + 1);
    v.extend_from_slice(id);
    v.extend_from_slice(&(data.len() as u32).to_be_bytes());
    v.extend_from_slice(data);
    if data.len() % 2 == 1 {
        v.push(0);
    }
    v
}

fn build_aiff(channels: u16, frames: u32, bits: u16, rate: f64, samples: &[u8]) -> Vec<u8> {
    let mut comm_body = Vec::new();
    comm_body.extend_from_slice(&(channels as i16).to_be_bytes());
    comm_body.extend_from_slice(&frames.to_be_bytes());
    comm_body.extend_from_slice(&(bits as i16).to_be_bytes());
    comm_body.extend_from_slice(&ext(rate));

    let mut ssnd_body = Vec::new();
    ssnd_body.extend_from_slice(&0_u32.to_be_bytes());
    ssnd_body.extend_from_slice(&0_u32.to_be_bytes());
    ssnd_body.extend_from_slice(samples);

    let mut inner = Vec::new();
    inner.extend_from_slice(b"AIFF");
    inner.extend_from_slice(&pack(b"COMM", &comm_body));
    inner.extend_from_slice(&pack(b"SSND", &ssnd_body));

    let mut file = Vec::new();
    file.extend_from_slice(b"FORM");
    file.extend_from_slice(&(inner.len() as u32).to_be_bytes());
    file.extend_from_slice(&inner);
    file
}

#[test]
fn probe_recognises_aiff() {
    let f = build_aiff(2, 1, 16, 44_100.0, &[0, 1, 2, 3]);
    assert_eq!(probe(&f), 100);
}

#[test]
fn probe_recognises_aifc() {
    let mut buf = b"FORM\x00\x00\x00\x10AIFC".to_vec();
    buf.extend_from_slice(&[0u8; 4]);
    assert_eq!(probe(&buf), 100);
}

#[test]
fn probe_rejects_riff_wave() {
    let buf = b"RIFF\x00\x00\x00\x10WAVE".to_vec();
    assert_eq!(probe(&buf), 0);
}

#[test]
fn demuxer_yields_one_packet_then_eof() {
    let pcm: [u8; 8] = [0, 1, 0xff, 0xff, 0x7f, 0xff, 0x80, 0];
    let f = build_aiff(2, 2, 16, 44_100.0, &pcm);
    let mut dx = AiffDemuxer::from_bytes(f).unwrap();
    let pkt = dx.next_packet().unwrap();
    assert_eq!(pkt.data, pcm);
    assert_eq!(pkt.pts, 0);
    assert_eq!(pkt.duration, 2);
    assert!(pkt.keyframe);
    assert!(dx.next_packet().is_none());
}

#[test]
fn demuxer_exposes_stream_info() {
    let pcm: [u8; 4] = [0, 1, 0xff, 0xff];
    let f = build_aiff(1, 2, 16, 48_000.0, &pcm);
    let dx = AiffDemuxer::from_bytes(f).unwrap();
    let s = dx.stream();
    assert_eq!(s.sample_rate, 48_000);
    assert_eq!(s.channels, 1);
    assert_eq!(s.codec_id, "pcm_s16be");
    assert_eq!(s.sample_format, Some(SampleFormat::S16));
    assert_eq!(s.duration, 2);
    assert_eq!(s.ticks_per_second, 48_000);
}

#[test]
fn aifc_sowt_sets_codec_id_to_pcm_s16le() {
    let mut comm_body = Vec::new();
    comm_body.extend_from_slice(&1_i16.to_be_bytes());
    comm_body.extend_from_slice(&2_u32.to_be_bytes());
    comm_body.extend_from_slice(&16_i16.to_be_bytes());
    comm_body.extend_from_slice(&ext(44_100.0));
    comm_body.extend_from_slice(b"sowt");
    comm_body.push(0);
    comm_body.push(0);

    let mut ssnd_body = Vec::new();
    ssnd_body.extend_from_slice(&0_u32.to_be_bytes());
    ssnd_body.extend_from_slice(&0_u32.to_be_bytes());
    ssnd_body.extend_from_slice(&[0x01, 0x00, 0xff, 0xff]);

    let fver_body = 0xA280_5140_u32.to_be_bytes();
    let mut inner = Vec::new();
    inner.extend_from_slice(b"AIFC");
    inner.extend_from_slice(&pack(b"FVER", &fver_body));
    inner.extend_from_slice(&pack(b"COMM", &comm_body));
    inner.extend_from_slice(&pack(b"SSND", &ssnd_body));
    let mut file = Vec::new();
    file.extend_from_slice(b"FORM");
    file.extend_from_slice(&(inner.len() as u32).to_be_bytes());
    file.extend_from_slice(&inner);

    let dx = AiffDemuxer::from_bytes(file).unwrap();
    let s = dx.stream();
    assert_eq!(s.codec_id, "pcm_s16le");
    assert_eq!(s.tag, Some(*b"sowt"));
}

#[test]
fn aifc_ima4_maps_to_adpcm_ima_qt() {
    let mut comm_body = Vec::new();
    comm_body.extend_from_slice(&1_i16.to_be_bytes());
    comm_body.extend_from_slice(&64_u32.to_be_bytes());
    comm_body.extend_from_slice(&16_i16.to_be_bytes());
    comm_body.extend_from_slice(&ext(22_050.0));
    comm_body.extend_from_slice(b"ima4");
    comm_body.push(0);
    comm_body.push(0);

    let mut ssnd_body = Vec::new();
    ssnd_body.extend_from_slice(&0_u32.to_be_bytes());
    ssnd_body.extend_from_slice(&0_u32.to_be_bytes());
    ssnd_body.extend_from_slice(&[0u8; 34]);

    let fver_body = 0xA280_5140_u32.to_be_bytes();
    let mut inner = Vec::new();
    inner.extend_from_slice(b"AIFC");
    inner.extend_from_slice(&pack(b"FVER", &fver_body));
    inner.extend_from_slice(&pack(b"COMM", &comm_body));
    inner.extend_from_slice(&pack(b"SSND", &ssnd_body));
    let mut file = Vec::new();
    file.extend_from_slice(b"FORM");
    file.extend_from_slice(&(inner.len() as u32).to_be_bytes());
    file.extend_from_slice(&inner);

    let dx = AiffDemuxer::from_bytes(file).unwrap();
    let s = dx.stream();
    assert_eq!(s.codec_id, "adpcm_ima_qt");
    assert_eq!(s.tag, Some(*b"ima4"));
}

#[test]
fn make_demuxer_is_direct_api() {
    let pcm: [u8; 4] = [0, 1, 0xff, 0xff];
    let f = build_aiff(1, 2, 16, 44_100.0, &pcm);
    let dx = make_demuxer(f).unwrap();
    assert_eq!(dx.stream().sample_rate, 44_100);
}
