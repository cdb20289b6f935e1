//! Pictures and their parts.

use oxideav_iff::anim::{planar_to_rgba, rgba_to_planar};
use oxideav_iff::ilbm::body::{decode_rows, encode_rows};
use oxideav_iff::ilbm::colour::{expand_palette, find_nearest};
use oxideav_iff::ilbm::file::{parse_bmhd, write_bmhd};
use oxideav_iff::ilbm::{
    byterun1_decode_row, byterun1_encode_row, encode_ilbm, expand_ehb_palette, expand_ham_row,
    indices_to_planar_row, parse_ilbm, planar_row_to_indices, Bmhd, Camg, Compression, IlbmImage,
    Masking,
};

fn header(w: u16, h: u16, planes: u8, masking: Masking, compression: Compression) -> Bmhd {
    Bmhd {
        width: w,
        height: h,
        x_origin: -3,
        y_origin: 4,
        n_planes: planes,
        masking,
        compression,
        pad: 7,
        transparent_color: 1,
        x_aspect: 10,
        y_aspect: 11,
        page_width: -320,
        page_height: 200,
    }
}

fn picture(masking: Masking, compression: Compression) -> IlbmImage {
    let palette = vec![[0, 0, 0], [10, 20, 30], [200, 100, 50], [255, 255, 255]];
    let mut rgba = Vec::new();
    for i in 0..27_usize {
        let c: [u8; 3] = palette[i * i % 4];
        rgba.extend_from_slice(&c);
        rgba.push(match masking {
            Masking::HasMask => {
                if i % 5 == 0 {
                    0
                } else {
                    255
                }
            }
            Masking::HasTransparentColor => {
                if i * i % 4 == 1 {
                    0
                } else {
                    255
                }
            }
            _ => 255,
        });
    }
    IlbmImage {
        width: 9,
        height: 3,
        bmhd: header(9, 3, 2, masking, compression),
        palette,
        camg: Camg::default(),
        rgba,
    }
}

#[test]
fn packed_rows_come_back() {
    let rows: [Vec<u8>; 6] = [
        vec![],
        vec![5],
        vec![5; 300],
        (0..300_u32).map(|i| (i % 256) as u8).collect(),
        vec![1, 1, 2, 2, 2, 3, 3, 3, 3, 4],
        vec![0x80; 129],
    ];
    for row in rows {
        let packed = byterun1_encode_row(&row);
        let mut out = vec![42];
        let used = byterun1_decode_row(&packed, row.len(), &mut out).unwrap();
        assert_eq!(used, packed.len());
        assert_eq!(&out[1..], &row[..]);
    }
}

#[test]
fn runs_are_unpacked() {
    let mut out = Vec::new();
    let used = byterun1_decode_row(&[0x80, 1, 7, 8, 0xFE, 9], 5, &mut out).unwrap();
    assert_eq!(used, 6);
    assert_eq!(out, vec![7, 8, 9, 9, 9]);
    assert!(byterun1_decode_row(&[0xFE], 3, &mut out).is_err());
    assert!(byterun1_decode_row(&[0xFE, 1], 2, &mut out).is_err());
    assert_eq!(out.len(), 5);
}

#[test]
fn bits_of_indices_make_planes() {
    let idx = [0, 1, 2, 3, 1, 0, 3, 2, 1];
    let low = indices_to_planar_row(&idx, 0, 2);
    let high = indices_to_planar_row(&idx, 1, 2);
    assert_eq!(low, vec![0b0101_1010, 0b1000_0000]);
    assert_eq!(high, vec![0b0011_0011, 0]);
    assert_eq!(planar_row_to_indices(&[low, high], 0, 2, 9), idx);
}

#[test]
fn half_bright_colours_follow_the_others() {
    let pal = vec![[255, 128, 1]; 32];
    let all = expand_ehb_palette(&pal);
    assert_eq!(all.len(), 64);
    assert_eq!(all[31], [255, 128, 1]);
    assert_eq!(all[32], [127, 64, 0]);
    assert_eq!(expand_palette(&pal, Camg { mode: 0 }).len(), 32);
    assert_eq!(expand_palette(&pal, Camg { mode: 0x80 }).len(), 64);
}

#[test]
fn hold_and_modify_changes_one_component() {
    let pal = [[0, 0, 0], [255, 0, 0]];
    let row = expand_ham_row(&[1, 0x1F, 0x2A, 0x35], &pal, 4);
    assert_eq!(row[0], [255, 0, 0]);
    assert_eq!(row[1], [255, 0, 255]);
    assert_eq!(row[2], [170, 0, 255]);
    assert_eq!(row[3], [170, 85, 255]);
}

#[test]
fn the_first_nearest_colour_is_found() {
    let pal = [[0, 0, 0], [10, 10, 10], [10, 10, 10], [250, 0, 0]];
    assert_eq!(find_nearest(&pal, [9, 9, 9]), 1);
    assert_eq!(find_nearest(&pal, [255, 0, 0]), 3);
    assert_eq!(find_nearest(&[], [1, 2, 3]), 0);
}

#[test]
fn bitmap_headers_come_back() {
    let b = header(1000, 2, 8, Masking::Lasso, Compression::ByteRun1);
    let bytes = write_bmhd(&b);
    assert_eq!(bytes.len(), 20);
    assert_eq!(parse_bmhd(&bytes), Ok(b));
    assert!(parse_bmhd(&bytes[..19]).is_err());
}

#[test]
fn stored_rows_come_back() {
    for compression in [Compression::Uncompressed, Compression::ByteRun1] {
        let b = header(20, 2, 2, Masking::HasMask, compression);
        let rows: Vec<Vec<u8>> = (0..6_u8).map(|i| vec![i, i, 7, i * 40]).collect();
        let bytes = encode_rows(&rows, &b);
        let mut back = vec![Vec::new(); 6];
        decode_rows(&mut back, &bytes, &b, "short").unwrap();
        assert_eq!(back, rows);
        let mut back = vec![Vec::new(); 6];
        assert!(decode_rows(&mut back, &bytes[..bytes.len() - 1], &b, "short").is_err());
    }
}

#[test]
fn planar_pictures_come_back() {
    for masking in [Masking::NoMask, Masking::HasMask] {
        let pic = picture(masking, Compression::Uncompressed);
        let planar = rgba_to_planar(&pic);
        let back = planar_to_rgba(&planar, &pic.bmhd, &pic.palette, pic.camg, false).unwrap();
        assert_eq!(back.rgba, pic.rgba);
    }
}

#[test]
fn pictures_come_back() {
    for compression in [Compression::Uncompressed, Compression::ByteRun1] {
        for masking in [
            Masking::NoMask,
            Masking::HasMask,
            Masking::HasTransparentColor,
        ] {
            let pic = picture(masking, compression);
            let back = parse_ilbm(&encode_ilbm(&pic).unwrap()).unwrap();
            assert_eq!(back.bmhd, pic.bmhd);
            assert_eq!(back.palette, pic.palette);
            assert_eq!((back.width, back.height), (9, 3));
            assert_eq!(back.rgba, pic.rgba);
        }
    }
}

#[test]
fn faulty_pictures_are_rejected() {
    let said = |d: &[u8]| parse_ilbm(d).unwrap_err().message();
    assert_eq!(said(b"FORM"), "ILBM: file shorter than FORM header");
    assert_eq!(
        said(b"CAT \x00\x00\x00\x04ILBM"),
        "ILBM: missing FORM signature"
    );
    assert_eq!(
        said(b"FORM\x00\x00\x00\x04ANIM"),
        "ILBM: form type is not ILBM"
    );
    assert_eq!(said(b"FORM\x00\x00\x00\x04ILBM"), "ILBM: missing BMHD chunk");
    let mut d = encode_ilbm(&picture(Masking::NoMask, Compression::Uncompressed)).unwrap();
    d.truncate(40);
    assert_eq!(said(&d), "ILBM: missing BODY chunk");
    d.truncate(39);
    assert_eq!(said(&d), "ILBM: chunk extends past FORM");
}
