//! Animations.

use oxideav_iff::anim::{
    encode_anim_op0, encode_anim_op5, encode_full_body, encode_op5_body, parse_anim, probe,
    rgba_to_planar, Anhd,
};
use oxideav_iff::ilbm::{encode_ilbm, Bmhd, Camg, Compression, IlbmImage, Masking};
fn solid_palette() -> Vec<[u8; 3]> {
    vec![[0, 0, 0], [255, 0, 0], [0, 255, 0], [0, 0, 255]]
}

fn frame_solid(color: [u8; 4], w: u16, h: u16, palette: Vec<[u8; 3]>) -> IlbmImage {
    let bmhd = Bmhd {
        width: w,
        height: h,
        x_origin: 0,
        y_origin: 0,
        n_planes: 2,
        masking: Masking::NoMask,
        compression: Compression::Uncompressed,
        pad: 0,
        transparent_color: 0,
        x_aspect: 1,
        y_aspect: 1,
        page_width: w as i16,
        page_height: h as i16,
    };
    let mut rgba = Vec::with_capacity((w as usize) * (h as usize) * 4);
    for _ in 0..(w as usize) * (h as usize) {
        rgba.extend_from_slice(&color);
    }
    IlbmImage {
        width: w as u32,
        height: h as u32,
        bmhd,
        palette,
        camg: Camg::default(),
        rgba,
        ..IlbmImage::default()
    }
}

#[test]
fn op0_roundtrip_three_solid_frames() {
    let pal = solid_palette();
    let frames = vec![
        frame_solid([255, 0, 0, 0xFF], 8, 4, pal.clone()),
        frame_solid([0, 255, 0, 0xFF], 8, 4, pal.clone()),
        frame_solid([0, 0, 255, 0xFF], 8, 4, pal.clone()),
    ];
    let bytes = encode_anim_op0(&frames).unwrap();
    assert_eq!(&bytes[0..4], b"FORM");
    assert_eq!(&bytes[8..12], b"ANIM");
    let dec = parse_anim(&bytes).unwrap();
    assert_eq!(dec.frames.len(), 3, "round-trips 3 frames");
    assert_eq!(dec.width, 8);
    assert_eq!(dec.height, 4);
    for (i, f) in dec.frames.iter().enumerate() {
        let src_color = match i {
            0 => [255, 0, 0],
            1 => [0, 255, 0],
            _ => [0, 0, 255],
        };
        assert_eq!(
            &f.rgba[0..3],
            &src_color,
            "frame {i} solid colour roundtripped"
        );
    }
}

#[test]
fn anhd_roundtrip() {
    let a = Anhd {
        operation: 5,
        mask: 0,
        w: 320,
        h: 200,
        x: 0,
        y: 0,
        abs_time: 0,
        rel_time: 2,
        interleave: 0,
        pad0: 0,
        bits: 0,
    };
    let bytes = a.write(1234);
    let parsed = Anhd::parse(&bytes).unwrap();
    assert_eq!(parsed.operation, 5);
    assert_eq!(parsed.w, 320);
    assert_eq!(parsed.h, 200);
    assert_eq!(parsed.rel_time, 2);
}

#[test]
fn probe_recognises_form_anim() {
    let mut bytes = vec![0u8; 12];
    bytes[0..4].copy_from_slice(b"FORM");
    bytes[8..12].copy_from_slice(b"ANIM");
    assert_eq!(probe(&bytes), 100);
}

fn frame_chunk(id: &[u8; 4], body: &[u8]) -> Vec<u8> {
    let mut out = Vec::with_capacity(8 + body.len() + 1);
    out.extend_from_slice(id);
    out.extend_from_slice(&(body.len() as u32).to_be_bytes());
    out.extend_from_slice(body);
    if body.len() & 1 == 1 {
        out.push(0);
    }
    out
}

fn assemble_anim(seed: &IlbmImage, deltas: &[(Anhd, Vec<u8>)]) -> Vec<u8> {
    let mut out = Vec::new();
    out.extend_from_slice(b"FORM");
    out.extend_from_slice(&0u32.to_be_bytes());
    out.extend_from_slice(b"ANIM");
    let leading = encode_ilbm(seed).unwrap();
    out.extend_from_slice(&leading);
    if leading.len() & 1 == 1 {
        out.push(0);
    }
    for (anhd, body) in deltas {
        let anhd_bytes = anhd.write(body.len() as u32);
        let mut inner = Vec::new();
        inner.extend_from_slice(b"ILBM");
        inner.extend_from_slice(&frame_chunk(b"ANHD", &anhd_bytes));
        inner.extend_from_slice(&frame_chunk(b"BODY", body));
        out.extend_from_slice(&frame_chunk(b"FORM", &inner));
    }
    let form_size = (out.len() - 8) as u32;
    out[4..8].copy_from_slice(&form_size.to_be_bytes());
    out
}

#[test]
fn interleave_zero_references_two_frames_back() {
    let pal = solid_palette();
    let seed = frame_solid([255, 0, 0, 0xFF], 8, 4, pal.clone());
    let green = frame_solid([0, 255, 0, 0xFF], 8, 4, pal.clone());
    let blue = frame_solid([0, 0, 255, 0xFF], 8, 4, pal.clone());

    let seed_planar = rgba_to_planar(&seed);
    let blue_planar = rgba_to_planar(&blue);

    let green_body = encode_full_body(&green).unwrap();
    let anhd0 = Anhd {
        operation: 0,
        w: 8,
        h: 4,
        rel_time: 1,
        interleave: 1,
        ..Anhd::default()
    };

    let blue_delta = encode_op5_body(&seed_planar, &blue_planar, &blue.bmhd).unwrap();
    let anhd_blue = Anhd {
        operation: 5,
        w: 8,
        h: 4,
        rel_time: 1,
        interleave: 0,
        ..Anhd::default()
    };

    let bytes = assemble_anim(&seed, &[(anhd0, green_body), (anhd_blue, blue_delta)]);
    let dec = parse_anim(&bytes).unwrap();
    assert_eq!(dec.frames.len(), 3);
    assert_eq!(&dec.frames[0].rgba[0..3], &[255, 0, 0]);
    assert_eq!(&dec.frames[1].rgba[0..3], &[0, 255, 0]);
    assert_eq!(
        &dec.frames[2].rgba[0..3],
        &[0, 0, 255],
        "interleave=0 delta resolved against the 2-back seed buffer"
    );
}

#[test]
fn interleave_one_references_previous_frame() {
    let pal = solid_palette();
    let seed = frame_solid([255, 0, 0, 0xFF], 8, 4, pal.clone());
    let green = frame_solid([0, 255, 0, 0xFF], 8, 4, pal.clone());
    let blue = frame_solid([0, 0, 255, 0xFF], 8, 4, pal.clone());

    let green_planar = rgba_to_planar(&green);
    let blue_planar = rgba_to_planar(&blue);

    let green_body = encode_full_body(&green).unwrap();
    let anhd0 = Anhd {
        operation: 0,
        w: 8,
        h: 4,
        rel_time: 1,
        interleave: 1,
        ..Anhd::default()
    };

    let blue_delta = encode_op5_body(&green_planar, &blue_planar, &blue.bmhd).unwrap();
    let anhd_blue = Anhd {
        operation: 5,
        w: 8,
        h: 4,
        rel_time: 1,
        interleave: 1,
        ..Anhd::default()
    };

    let bytes = assemble_anim(&seed, &[(anhd0, green_body), (anhd_blue, blue_delta)]);
    let dec = parse_anim(&bytes).unwrap();
    assert_eq!(dec.frames.len(), 3);
    assert_eq!(&dec.frames[2].rgba[0..3], &[0, 0, 255]);
}

#[test]
fn encoders_tag_interleave_one_and_roundtrip() {
    let pal = solid_palette();
    let frames = vec![
        frame_solid([255, 0, 0, 0xFF], 8, 4, pal.clone()),
        frame_solid([0, 255, 0, 0xFF], 8, 4, pal.clone()),
        frame_solid([0, 0, 255, 0xFF], 8, 4, pal.clone()),
    ];
    let bytes = encode_anim_op5(&frames).unwrap();
    let dec = parse_anim(&bytes).unwrap();
    assert_eq!(dec.frames.len(), 3);
    assert_eq!(&dec.frames[0].rgba[0..3], &[255, 0, 0]);
    assert_eq!(&dec.frames[1].rgba[0..3], &[0, 255, 0]);
    assert_eq!(&dec.frames[2].rgba[0..3], &[0, 0, 255]);
}
