//! Sound accelerator chunks.

use oxideav_iff::aiff::{
    parse_saxel_chunk, write_saxel_chunk, AiffError, Marker, MarkerChunk, Saxel, SaxelChunk,
};
fn pack_one(id: i16, data: &[u8]) -> Vec<u8> {
    let mut v = Vec::with_capacity(4 + data.len() + 1);
    v.extend_from_slice(&id.to_be_bytes());
    v.extend_from_slice(&(data.len() as u16).to_be_bytes());
    v.extend_from_slice(data);
    if data.len() % 2 == 1 {
        v.push(0);
    }
    v
}

fn pack_chunk(saxels: &[(i16, &[u8])]) -> Vec<u8> {
    let mut body = Vec::new();
    body.extend_from_slice(&(saxels.len() as u16).to_be_bytes());
    for (id, data) in saxels {
        body.extend_from_slice(&pack_one(*id, data));
    }
    body
}

#[test]
fn parses_empty_saxel_list() {
    let body = pack_chunk(&[]);
    let c = parse_saxel_chunk(&body).unwrap();
    assert!(c.saxels.is_empty());
}

#[test]
fn parses_single_saxel_with_even_data() {
    let data: Vec<u8> = (0..48u8).collect();
    let body = pack_chunk(&[(1, &data)]);
    let c = parse_saxel_chunk(&body).unwrap();
    assert_eq!(c.saxels.len(), 1);
    assert_eq!(c.saxels[0].id, 1);
    assert_eq!(c.saxels[0].data, data);
    assert_eq!(c.saxels[0].len(), 48);
    assert!(!c.saxels[0].is_empty());
}

#[test]
fn parses_single_saxel_with_odd_data() {
    let data = [0xDE_u8, 0xAD, 0xBE, 0xEF, 0x42];
    let body = pack_chunk(&[(7, &data)]);
    assert_eq!(
        body.len(),
        2 /* numSaxels */ + 4 /* hdr */ + 5 /* data */ + 1 /* pad */
    );
    let c = parse_saxel_chunk(&body).unwrap();
    assert_eq!(c.saxels[0].id, 7);
    assert_eq!(c.saxels[0].data, &data);
}

#[test]
fn parses_empty_saxel_data() {
    let body = pack_chunk(&[(3, &[])]);
    let c = parse_saxel_chunk(&body).unwrap();
    assert_eq!(c.saxels[0].id, 3);
    assert!(c.saxels[0].is_empty());
}

#[test]
fn parses_multiple_saxels_in_document_order() {
    let a = vec![1u8, 2, 3, 4];
    let b = vec![0xAA_u8, 0xBB];
    let c_data = vec![9u8, 9, 9];
    let body = pack_chunk(&[(5, &a), (1, &b), (3, &c_data)]);
    let parsed = parse_saxel_chunk(&body).unwrap();
    assert_eq!(parsed.saxels.len(), 3);
    assert_eq!(parsed.saxels[0].id, 5);
    assert_eq!(parsed.saxels[0].data, a);
    assert_eq!(parsed.saxels[1].id, 1);
    assert_eq!(parsed.saxels[1].data, b);
    assert_eq!(parsed.saxels[2].id, 3);
    assert_eq!(parsed.saxels[2].data, c_data);
}

#[test]
fn parses_multiple_saxels_with_mixed_pad() {
    let body = pack_chunk(&[
        (1, &[0xA1]),
        (2, &[0xB1, 0xB2]),
        (3, &[0xC1, 0xC2, 0xC3]),
        (4, &[0xD1, 0xD2, 0xD3, 0xD4]),
    ]);
    let parsed = parse_saxel_chunk(&body).unwrap();
    assert_eq!(parsed.saxels.len(), 4);
    assert_eq!(parsed.saxels[0].data, &[0xA1]);
    assert_eq!(parsed.saxels[1].data, &[0xB1, 0xB2]);
    assert_eq!(parsed.saxels[2].data, &[0xC1, 0xC2, 0xC3]);
    assert_eq!(parsed.saxels[3].data, &[0xD1, 0xD2, 0xD3, 0xD4]);
}

#[test]
fn by_marker_id_finds_saxel() {
    let body = pack_chunk(&[(1, &[0x11]), (2, &[0x22]), (3, &[0x33])]);
    let c = parse_saxel_chunk(&body).unwrap();
    assert_eq!(c.by_marker_id(2).unwrap().data, &[0x22]);
    assert_eq!(c.by_marker_id(3).unwrap().data, &[0x33]);
    assert!(c.by_marker_id(99).is_none());
}

#[test]
fn resolve_marker_returns_some_for_valid_link() {
    let body = pack_chunk(&[(7, &[0x42; 48])]);
    let c = parse_saxel_chunk(&body).unwrap();
    let markers = MarkerChunk {
        markers: vec![Marker {
            id: 7,
            position: 1024,
            name: "loop start".into(),
        }],
    };
    let m = c.saxels[0].resolve_marker(&markers).unwrap();
    assert_eq!(m.position, 1024);
    assert_eq!(m.name, "loop start");
}

#[test]
fn saxel_resolve_marker_returns_none_when_id_missing() {
    let body = pack_chunk(&[(99, &[0x00])]);
    let c = parse_saxel_chunk(&body).unwrap();
    let markers = MarkerChunk {
        markers: vec![Marker {
            id: 1,
            position: 0,
            name: "x".into(),
        }],
    };
    assert!(c.saxels[0].resolve_marker(&markers).is_none());
}

#[test]
fn resolve_marker_returns_none_for_zero_or_negative_id() {
    let body = pack_chunk(&[(0, &[]), (-1, &[])]);
    let c = parse_saxel_chunk(&body).unwrap();
    let markers = MarkerChunk {
        markers: vec![Marker {
            id: 1,
            position: 0,
            name: "x".into(),
        }],
    };
    assert!(c.saxels[0].resolve_marker(&markers).is_none());
    assert!(c.saxels[1].resolve_marker(&markers).is_none());
}

#[test]
fn rejects_truncated_num_saxels() {
    assert!(matches!(
        parse_saxel_chunk(&[]),
        Err(AiffError::Truncated("SAXL numSaxels"))
    ));
    assert!(matches!(
        parse_saxel_chunk(&[0x00]),
        Err(AiffError::Truncated("SAXL numSaxels"))
    ));
}

#[test]
fn rejects_truncated_saxel_header() {
    let body = [0x00, 0x01, 0x00, 0x01, 0x00];
    assert!(matches!(
        parse_saxel_chunk(&body),
        Err(AiffError::Truncated("SAXL saxel header"))
    ));
}

#[test]
fn rejects_truncated_saxel_data() {
    let mut body = Vec::new();
    body.extend_from_slice(&1u16.to_be_bytes());
    body.extend_from_slice(&1i16.to_be_bytes());
    body.extend_from_slice(&8u16.to_be_bytes());
    body.extend_from_slice(&[0xDE, 0xAD, 0xBE, 0xEF]);
    assert!(matches!(
        parse_saxel_chunk(&body),
        Err(AiffError::Truncated("SAXL saxelData"))
    ));
}

#[test]
fn tolerates_missing_pad_on_last_saxel() {
    let mut body = Vec::new();
    body.extend_from_slice(&1u16.to_be_bytes());
    body.extend_from_slice(&5i16.to_be_bytes());
    body.extend_from_slice(&3u16.to_be_bytes());
    body.extend_from_slice(&[0xAA, 0xBB, 0xCC]);
    let parsed = parse_saxel_chunk(&body).unwrap();
    assert_eq!(parsed.saxels[0].id, 5);
    assert_eq!(parsed.saxels[0].data, &[0xAA, 0xBB, 0xCC]);
}

#[test]
fn saxel_write_round_trips_through_parse() {
    let original = SaxelChunk {
        saxels: vec![
            Saxel {
                id: 1,
                data: (0..48u8).collect(),
            },
            Saxel {
                id: 2,
                data: vec![0xDE, 0xAD, 0xBE, 0xEF, 0x42],
            },
            Saxel {
                id: 3,
                data: vec![],
            },
            Saxel {
                id: 4,
                data: vec![0x11, 0x22, 0x33],
            },
        ],
    };
    let bytes = write_saxel_chunk(&original);
    let parsed = parse_saxel_chunk(&bytes).unwrap();
    assert_eq!(parsed, original);
}

#[test]
fn saxel_write_empty_chunk() {
    let c = SaxelChunk::default();
    let bytes = write_saxel_chunk(&c);
    assert_eq!(bytes, vec![0, 0]);
    let parsed = parse_saxel_chunk(&bytes).unwrap();
    assert!(parsed.saxels.is_empty());
}

#[test]
fn saxel_write_matches_hand_packed_layout() {
    let original = SaxelChunk {
        saxels: vec![
            Saxel {
                id: 1,
                data: vec![0xAA, 0xBB],
            },
            Saxel {
                id: 2,
                data: vec![0xCC, 0xDD, 0xEE],
            },
        ],
    };
    let bytes = write_saxel_chunk(&original);
    let expected = pack_chunk(&[(1, &[0xAA, 0xBB]), (2, &[0xCC, 0xDD, 0xEE])]);
    assert_eq!(bytes, expected);
}

#[test]
fn saxel_write_preserves_document_order() {
    let original = SaxelChunk {
        saxels: vec![
            Saxel {
                id: 9,
                data: vec![0x09],
            },
            Saxel {
                id: 1,
                data: vec![0x01],
            },
            Saxel {
                id: 5,
                data: vec![0x05],
            },
        ],
    };
    let bytes = write_saxel_chunk(&original);
    let parsed = parse_saxel_chunk(&bytes).unwrap();
    let ids: Vec<i16> = parsed.saxels.iter().map(|s| s.id).collect();
    assert_eq!(ids, vec![9, 1, 5]);
}
