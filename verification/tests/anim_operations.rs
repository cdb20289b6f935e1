//! Animations of every operation, and what is wrong with faulty ones.

use oxideav_iff::anim::delta::apply_delta;
use oxideav_iff::anim::demuxer::AnimDemuxer;
use oxideav_iff::anim::file::open_anim;
use oxideav_iff::anim::op1::op1_full_plane_mask;
use oxideav_iff::anim::op4::Op4Options;
use oxideav_iff::anim::{
    apply_op1_for_test, apply_op23_for_test, apply_op4_for_test, apply_op5_for_test,
    apply_op7_for_test, encode_anim_op0, encode_anim_op1, encode_anim_op2, encode_anim_op3,
    encode_anim_op4, encode_anim_op5, encode_anim_op7, encode_full_body, encode_op1_body,
    encode_op23_body, encode_op4_body, encode_op5_body, encode_op7_body, parse_anim, probe, rgba_to_planar, Anhd,
};
use oxideav_iff::error::{IffError, Reason};
use oxideav_iff::ilbm::{Bmhd, Camg, Compression, IlbmImage, Masking};

fn header(w: u16, h: u16, planes: u8, masking: Masking) -> Bmhd {
    Bmhd {
        width: w,
        height: h,
        x_origin: 0,
        y_origin: 0,
        n_planes: planes,
        masking,
        compression: Compression::Uncompressed,
        pad: 0,
        transparent_color: 0,
        x_aspect: 1,
        y_aspect: 1,
        page_width: w as i16,
        page_height: h as i16,
    }
}

/// A picture of 32 by 6 pixels in four colours, different for every seed.
fn frame(seed: usize) -> IlbmImage {
    let palette = vec![[0, 0, 0], [255, 0, 0], [0, 255, 0], [0, 0, 255]];
    let mut rgba = Vec::new();
    for y in 0..6_usize {
        for x in 0..32_usize {
            let c: [u8; 3] = palette[(x * seed / 3 + y * y + seed) % 4];
            rgba.extend_from_slice(&c);
            rgba.push(255);
        }
    }
    IlbmImage {
        width: 32,
        height: 6,
        bmhd: header(32, 6, 2, Masking::NoMask),
        palette,
        camg: Camg::default(),
        rgba,
    }
}

fn frames() -> Vec<IlbmImage> {
    vec![frame(1), frame(2), frame(2), frame(7), frame(1)]
}

fn pixels(frames: &[IlbmImage]) -> Vec<Vec<u8>> {
    frames.iter().map(|f| f.rgba.clone()).collect()
}

#[test]
fn frames_of_every_operation_come_back() {
    let all = frames();
    let written = vec![
        encode_anim_op0(&all).unwrap(),
        encode_anim_op1(&all).unwrap(),
        encode_anim_op2(&all).unwrap(),
        encode_anim_op3(&all).unwrap(),
        encode_anim_op4(&all, false).unwrap(),
        encode_anim_op4(&all, true).unwrap(),
        encode_anim_op5(&all).unwrap(),
        encode_anim_op7(&all, false).unwrap(),
        encode_anim_op7(&all, true).unwrap(),
    ];
    for bytes in written {
        assert_eq!(probe(&bytes), 100);
        let back = parse_anim(&bytes).unwrap();
        assert_eq!((back.width, back.height), (32, 6));
        assert_eq!(pixels(&back.frames), pixels(&all));
        assert_eq!(back.frames[4].palette, all[0].palette);
    }
}

#[test]
fn deltas_turn_one_bitmap_into_the_other() {
    let b = header(32, 6, 2, Masking::NoMask);
    let prev = rgba_to_planar(&frame(1));
    let cur = rgba_to_planar(&frame(7));

    let mut p = prev.clone();
    let d = encode_op1_body(&prev, &cur, &b).unwrap();
    let a = Anhd {
        operation: 1,
        w: 32,
        h: 6,
        mask: op1_full_plane_mask(2),
        ..Anhd::default()
    };
    apply_op1_for_test(&a, &mut p, &d, &b).unwrap();
    assert_eq!(p, cur);

    for long_data in [false, true] {
        let mut p = prev.clone();
        let d = encode_op23_body(&prev, &cur, &b, long_data).unwrap();
        apply_op23_for_test(&mut p, &d, &b, long_data).unwrap();
        assert_eq!(p, cur);

        let mut p = prev.clone();
        let d = encode_op4_body(&prev, &cur, &b, long_data).unwrap();
        let bits = if long_data { 25 } else { 24 };
        apply_op4_for_test(bits, &mut p, &d, &b).unwrap();
        assert_eq!(p, cur);

        let mut p = prev.clone();
        let d = encode_op7_body(&prev, &cur, &b, long_data).unwrap();
        apply_op7_for_test(&mut p, &d, &b, long_data).unwrap();
        assert_eq!(p, cur);
    }

    let mut p = prev.clone();
    let d = encode_op5_body(&prev, &cur, &b).unwrap();
    apply_op5_for_test(&Anhd::default(), &mut p, &d, &b).unwrap();
    assert_eq!(p, cur);
}

#[test]
fn deltas_keep_the_shape_of_a_bitmap() {
    let b = header(32, 6, 2, Masking::NoMask);
    let start = rgba_to_planar(&frame(3));
    let mut noise: Vec<u8> = (0..400_u32).map(|i| (i * 37 % 251) as u8).collect();
    noise[3] = 64;
    for operation in 0..=8 {
        for bits in [0, 1] {
            let mut p = start.clone();
            let a = Anhd {
                operation,
                bits,
                w: 32,
                h: 6,
                ..Anhd::default()
            };
            let r = apply_delta(&a, &mut p, &noise, &b);
            assert_eq!(p.len(), 12);
            assert!(p.iter().all(|row| row.len() == 4));
            if operation == 6 || operation == 8 {
                assert_eq!(
                    r,
                    Err(IffError::Unsupported(Reason::Operation { operation }))
                );
            }
        }
    }
}

#[test]
fn the_same_bitmap_takes_no_ops() {
    let b = header(8, 2, 1, Masking::NoMask);
    let p = vec![vec![1, 2], vec![3, 4]];
    let d = encode_op5_body(&p, &p, &b).unwrap();
    let mut q = p.clone();
    apply_op5_for_test(&Anhd::default(), &mut q, &d, &b).unwrap();
    assert_eq!(q, p);
    assert_eq!(&d[..4], &[0, 0, 0, 0]);
}

#[test]
fn a_byte_column_is_written_as_runs() {
    let b = header(8, 4, 1, Masking::NoMask);
    let mut p = vec![vec![0, 0]; 4];
    let mut d = vec![0; 32];
    d[3] = 32;
    d.extend_from_slice(&[1, 0x82, 7, 8, 0, 0]);
    apply_op5_for_test(&Anhd::default(), &mut p, &d, &b).unwrap();
    assert_eq!(p, vec![vec![0, 0], vec![7, 0], vec![8, 0], vec![0, 0]]);
    let mut p = vec![vec![0, 0]; 4];
    let mut d = vec![0; 32];
    d[3] = 32;
    d.extend_from_slice(&[0x80, 3, 9, 0, 0]);
    apply_op5_for_test(&Anhd::default(), &mut p, &d, &b).unwrap();
    assert_eq!(p, vec![vec![9, 0], vec![9, 0], vec![9, 0], vec![0, 0]]);
}

/// A table of `slots` offsets, zero but for the given ones, and the lists behind it.
fn delta(slots: usize, offsets: &[(usize, u32)], lists: &[u8]) -> Vec<u8> {
    let mut out = vec![0; slots * 4];
    for (slot, offset) in offsets {
        out[slot * 4..slot * 4 + 4].copy_from_slice(&offset.to_be_bytes());
    }
    out.extend_from_slice(lists);
    out
}

#[test]
fn encoders_write_these_bytes() {
    let b = header(32, 6, 1, Masking::NoMask);
    let before = vec![vec![0; 4]; 6];
    let mut after = before.clone();
    for y in 1..4 {
        after[y] = vec![1, 2, 0, 0];
    }
    after[4] = vec![5, 6, 0, 9];

    assert_eq!(
        encode_op5_body(&before, &after, &b).unwrap(),
        delta(
            8,
            &[(0, 32)],
            &[
                1, 0x80, 3, 1, 0x81, 5, 1, 0, 1, 0x80, 3, 2, 0x81, 6, 1, 0, 6, 0, 4, 0x81, 9, 1, 0
            ],
        )
    );
    assert_eq!(
        encode_op7_body(&before, &after, &b, false).unwrap(),
        delta(
            16,
            &[(0, 64), (8, 74)],
            &[4, 1, 0, 3, 0x81, 1, 3, 4, 0x81, 1, 1, 2, 5, 6, 0, 9],
        )
    );
    assert_eq!(
        encode_op7_body(&before, &after, &b, true).unwrap(),
        delta(
            16,
            &[(0, 64), (8, 70)],
            &[4, 1, 0, 3, 0x81, 1, 1, 2, 0, 0, 5, 6, 0, 9],
        )
    );
    assert_eq!(
        encode_op4_body(&before, &after, &b, false).unwrap(),
        delta(
            16,
            &[(0, 39), (8, 32)],
            &[
                0, 2, 0xFF, 0xFD, 0, 8, 0, 1, 0, 9, 0, 1, 0xFF, 0xFF, 1, 2, 5, 6, 0, 9
            ],
        )
    );
    assert_eq!(
        encode_op23_body(&before, &after, &b, false).unwrap(),
        delta(
            8,
            &[(0, 32)],
            &[
                0, 2, 1, 2, 0, 2, 1, 2, 0, 2, 1, 2, 0xFF, 0xFC, 0, 2, 5, 6, 0, 9, 0xFF, 0xFF
            ],
        )
    );
    assert_eq!(
        encode_op23_body(&before, &after, &b, true).unwrap(),
        delta(
            8,
            &[(0, 32)],
            &[
                0xFF, 0xFD, 0, 4, 1, 2, 0, 0, 1, 2, 0, 0, 1, 2, 0, 0, 5, 6, 0, 9, 0xFF, 0xFF
            ],
        )
    );
}

#[test]
fn a_difference_is_its_own_inverse() {
    let b = header(8, 1, 2, Masking::NoMask);
    let a = Anhd {
        operation: 1,
        w: 8,
        h: 1,
        mask: 3,
        ..Anhd::default()
    };
    let start = vec![vec![0x0F, 0], vec![0xAA, 1]];
    let mut p = start.clone();
    let d = [0xFF, 0, 0x0A, 1];
    apply_op1_for_test(&a, &mut p, &d, &b).unwrap();
    assert_eq!(p, vec![vec![0xF0, 0], vec![0xA0, 0]]);
    apply_op1_for_test(&a, &mut p, &d, &b).unwrap();
    assert_eq!(p, start);
}

#[test]
fn full_masks_have_a_bit_per_plane() {
    assert_eq!(op1_full_plane_mask(0), 0);
    assert_eq!(op1_full_plane_mask(1), 1);
    assert_eq!(op1_full_plane_mask(5), 31);
    assert_eq!(op1_full_plane_mask(8), 255);
    assert_eq!(op1_full_plane_mask(24), 255);
}

#[test]
fn option_bits_are_told_apart() {
    let options = Op4Options::from_bits(0b11_1101).unwrap();
    assert!(options.long_data && options.long_offsets);
    let options = Op4Options::from_bits(0b01_1000).unwrap();
    assert!(!options.long_data && !options.long_offsets);
    assert!(Op4Options::from_bits(0b01_1010).is_err());
    assert!(Op4Options::from_bits(0b01_0000).is_err());
    assert!(Op4Options::from_bits(0b00_1000).is_err());
    let e = Op4Options::from_bits(0x40).unwrap_err();
    assert_eq!(e, IffError::Unsupported(Reason::ReservedBits { bits: 0x40 }));
    assert_eq!(
        e.message(),
        "ANIM op 4: reserved ANHD.bits set (0x00000040); requires bits 6..=31 = 0"
    );
}

#[test]
fn animation_headers_come_back() {
    let a = Anhd {
        operation: 7,
        mask: 0x55,
        w: 320,
        h: 200,
        x: -1,
        y: 5,
        abs_time: 0x0102_0304,
        rel_time: 0xFFFF_FFFF,
        interleave: 2,
        pad0: 9,
        bits: 0x8000_0001,
    };
    let bytes = a.write(1000);
    assert_eq!(Anhd::parse(&bytes), Ok(a));
    assert_eq!(
        Anhd::parse(&bytes[..23]).unwrap_err().message(),
        "ANIM ANHD: need ≥24 bytes, got 23"
    );
}

#[test]
fn faulty_animations_are_rejected() {
    let said = |d: &[u8]| parse_anim(d).unwrap_err().message();
    assert_eq!(said(b"FORM"), "ANIM: file shorter than FORM header");
    assert_eq!(
        said(b"LIST\x00\x00\x00\x04ANIM"),
        "ANIM: missing FORM signature"
    );
    assert_eq!(
        said(b"FORM\x00\x00\x00\x04ILBM"),
        "ANIM: outer form type is \"ILBM\" (expected ANIM)"
    );
    assert_eq!(said(b"FORM\x00\x00\x00\x04ANIM"), "ANIM: no ILBM frames");
    assert_eq!(
        said(b"FORM\x00\x00\x00\x0CANIMNAME\x00\x00\x00\x01"),
        "ANIM: child chunk NAME extends past outer FORM"
    );
    let mut d = encode_anim_op0(&frames()[..1]).unwrap();
    d.extend_from_slice(b"FORM\x00\x00\x00\x04ILBM");
    let n = (d.len() - 8) as u32;
    d[4..8].copy_from_slice(&n.to_be_bytes());
    assert_eq!(said(&d), "ANIM: delta frame missing ANHD chunk");
}

#[test]
fn encoders_refuse_what_they_cannot_write() {
    assert_eq!(
        encode_anim_op5(&[]).unwrap_err(),
        IffError::Invalid(Reason::NoFrames { op: "5" })
    );
    let b = header(16, 2, 1, Masking::NoMask);
    let p = vec![vec![0, 0]; 2];
    assert_eq!(
        encode_op7_body(&p, &p, &b, true).unwrap_err(),
        IffError::Invalid(Reason::RowWidth {
            op: "7 encode",
            row_bytes: 2,
            unit: "data size",
            size: 4
        })
    );
    assert_eq!(
        encode_op5_body(&p[..1], &p, &b).unwrap_err().message(),
        "ANIM op 5 encode: planar buffers have 1 / 2 rows, expected 2"
    );
}

#[test]
fn streams_are_opened_at_their_first_form() {
    let all = frames();
    let mut d = encode_anim_op5(&all).unwrap();
    d.extend_from_slice(b"more");
    assert_eq!(pixels(&open_anim(&d).unwrap().frames), pixels(&all));
    assert_eq!(open_anim(&[]).unwrap_err().message(), "ANIM: empty file");
    assert_eq!(
        open_anim(b"FORM").unwrap_err().message(),
        "IFF: truncated chunk header"
    );
    assert_eq!(
        open_anim(b"LIST\x00\x00\x00\x04").unwrap_err().message(),
        "ANIM: expected FORM chunk, got LIST"
    );
    assert_eq!(
        open_anim(b"FORM\x00\x00\x00\x04").unwrap_err(),
        IffError::UnexpectedEnd
    );
    assert_eq!(
        open_anim(b"FORM\x00\x00\x00\x04ILBM").unwrap_err().message(),
        "IFF: not an ANIM file (form type \"ILBM\")"
    );
    assert_eq!(
        open_anim(b"FORM\x00\x00\x00\x08ANIM").unwrap_err(),
        IffError::UnexpectedEnd
    );
}

#[test]
fn players_get_one_frame_at_a_time() {
    let all = frames();
    let d = encode_anim_op7(&all, true).unwrap();
    let mut player = AnimDemuxer::open(&d).unwrap();
    assert_eq!(
        (player.width(), player.height(), player.frame_count()),
        (32, 6, 5)
    );
    for (i, f) in all.iter().enumerate() {
        let p = player.next_packet().unwrap();
        assert_eq!(p.pts, i as i64);
        assert_eq!(p.dts, i as i64);
        assert_eq!(p.duration, 1);
        assert!(p.keyframe);
        assert_eq!(p.data, f.rgba);
    }
    assert_eq!(player.next_packet(), None);
    assert_eq!(player.next_packet(), None);
}

#[test]
fn frames_are_shown_at_multiples_of_their_relative_time() {
    let all = frames();
    let mut d = encode_anim_op5(&all).unwrap();
    let at: Vec<usize> = (0..d.len() - 4).filter(|&i| &d[i..i + 4] == b"ANHD").collect();
    assert_eq!(at.len(), 4);
    for a in &at {
        d[a + 8 + 14..a + 8 + 18].copy_from_slice(&2_u32.to_be_bytes());
    }
    let mut player = AnimDemuxer::open(&d).unwrap();
    for (i, f) in all.iter().enumerate() {
        let p = player.next_packet().unwrap();
        assert_eq!((p.pts, p.dts), (2 * i as i64, 2 * i as i64));
        assert_eq!(p.data, f.rgba);
    }
    assert_eq!(player.next_packet(), None);

    d[at[3] + 8 + 14..at[3] + 8 + 18].copy_from_slice(&u32::MAX.to_be_bytes());
    d[at[1] + 8 + 14..at[1] + 8 + 18].copy_from_slice(&0_u32.to_be_bytes());
    let mut player = AnimDemuxer::open(&d).unwrap();
    let mut times = Vec::new();
    while let Some(p) = player.next_packet() {
        times.push(p.pts);
    }
    assert_eq!(times, vec![0, 2, 0, 6, 4 * 0xFFFF_FFFF]);
}

#[test]
fn word_positions_beyond_a_short_offset_are_refused() {
    let b = header(32, 32768, 1, Masking::NoMask);
    let before = vec![vec![0; 4]; 32768];
    let mut after = before.clone();
    after[32767][3] = 1;
    let refused = encode_op4_body(&before, &after, &b, false).unwrap_err();
    assert!(matches!(refused, IffError::Unsupported(_)));
    assert_eq!(
        refused.message(),
        "ANIM op 4 encode: word position beyond a short offset"
    );
    let d = encode_op4_body(&before, &after, &b, true).unwrap();
    let mut p = before.clone();
    apply_op4_for_test(25, &mut p, &d, &b).unwrap();
    assert_eq!(p, after);

    let mut after = before.clone();
    after[32767][1] = 1;
    let d = encode_op4_body(&before, &after, &b, false).unwrap();
    let mut p = before.clone();
    apply_op4_for_test(24, &mut p, &d, &b).unwrap();
    assert_eq!(p, after);

    let b = header(16, 65535, 1, Masking::NoMask);
    let before = vec![vec![0; 2]; 65535];
    let after = vec![vec![7; 2]; 65535];
    let d = encode_op4_body(&before, &after, &b, false).unwrap();
    let mut p = before.clone();
    apply_op4_for_test(24, &mut p, &d, &b).unwrap();
    assert_eq!(p, after);
}

#[test]
fn whole_bitmaps_are_stored_as_their_header_says() {
    let mut all = frames();
    for f in &mut all {
        f.bmhd.compression = Compression::ByteRun1;
    }
    let d = encode_anim_op0(&all).unwrap();
    assert_eq!(pixels(&parse_anim(&d).unwrap().frames), pixels(&all));

    let mut blank = frame(1);
    blank.bmhd = header(32, 6, 2, Masking::NoMask);
    blank.rgba = [0, 0, 0, 255].repeat(32 * 6);
    assert_eq!(encode_full_body(&blank).unwrap(), vec![0; 48]);
    blank.bmhd.compression = Compression::ByteRun1;
    assert_eq!(encode_full_body(&blank).unwrap(), [0xFD, 0].repeat(12));
}

#[test]
fn refused_payloads_need_no_rows() {
    let b = header(16, 4, 1, Masking::NoMask);
    let a = Anhd {
        operation: 1,
        w: 8,
        h: 4,
        ..Anhd::default()
    };
    let refused = apply_op1_for_test(&a, &mut [], &[], &b).unwrap_err();
    assert!(matches!(refused, IffError::Unsupported(_)));
    let whole = Anhd { w: 16, ..a };
    let mut one = vec![vec![1, 2]];
    assert_eq!(
        apply_op1_for_test(&whole, &mut one, &[3, 3, 9], &b)
            .unwrap_err()
            .message(),
        "ANIM op 1: uncompressed XOR BODY too short"
    );
    assert_eq!(one, vec![vec![2, 1]]);

    let mut d = vec![0; 32];
    d[3] = 99;
    assert_eq!(
        apply_op23_for_test(&mut [], &d, &b, false)
            .unwrap_err()
            .message(),
        "ANIM op 2/3: plane pointer out of range"
    );

    let odd = header(16, 1, 1, Masking::NoMask);
    let refused = encode_op23_body(&[vec![1]], &[vec![2]], &odd, true).unwrap_err();
    assert!(matches!(refused, IffError::Unsupported(_)));
}
