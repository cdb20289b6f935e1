//! The marker chunk.

use oxideav_iff::aiff::{parse_marker_chunk, write_marker_chunk, AiffError, Marker, MarkerChunk};
fn pack(id: i16, position: u32, name: &str) -> Vec<u8> {
    let mut v = Vec::new();
    v.extend_from_slice(&id.to_be_bytes());
    v.extend_from_slice(&position.to_be_bytes());
    v.push(name.len() as u8);
    v.extend_from_slice(name.as_bytes());
    if (1 + name.len()) % 2 == 1 {
        v.push(0);
    }
    v
}

fn pack_chunk(markers: &[(i16, u32, &str)]) -> Vec<u8> {
    let mut body = Vec::new();
    body.extend_from_slice(&(markers.len() as u16).to_be_bytes());
    for (id, pos, name) in markers {
        body.extend_from_slice(&pack(*id, *pos, name));
    }
    body
}

#[test]
fn parses_empty_marker_list() {
    let body = pack_chunk(&[]);
    let m = parse_marker_chunk(&body).unwrap();
    assert!(m.markers.is_empty());
}

#[test]
fn parses_single_marker_with_even_name() {
    let body = pack_chunk(&[(1, 1024, "loop")]);
    let m = parse_marker_chunk(&body).unwrap();
    assert_eq!(m.markers.len(), 1);
    assert_eq!(m.markers[0].id, 1);
    assert_eq!(m.markers[0].position, 1024);
    assert_eq!(m.markers[0].name, "loop");
}

#[test]
fn parses_single_marker_with_odd_name() {
    let body = pack_chunk(&[(7, 0, "cue")]);
    let m = parse_marker_chunk(&body).unwrap();
    assert_eq!(m.markers[0].id, 7);
    assert_eq!(m.markers[0].position, 0);
    assert_eq!(m.markers[0].name, "cue");
}

#[test]
fn parses_empty_marker_name() {
    let body = pack_chunk(&[(2, 5, "")]);
    let m = parse_marker_chunk(&body).unwrap();
    assert_eq!(m.markers[0].id, 2);
    assert_eq!(m.markers[0].position, 5);
    assert_eq!(m.markers[0].name, "");
}

#[test]
fn parses_multiple_markers_in_document_order() {
    let body = pack_chunk(&[(10, 0, "begin"), (5, 22050, "mid"), (20, 44100, "end")]);
    let m = parse_marker_chunk(&body).unwrap();
    assert_eq!(m.markers.len(), 3);
    assert_eq!(m.markers[0].id, 10);
    assert_eq!(m.markers[1].id, 5);
    assert_eq!(m.markers[2].id, 20);
}

#[test]
fn by_id_finds_marker() {
    let body = pack_chunk(&[(1, 0, "a"), (2, 10, "b"), (3, 20, "c")]);
    let m = parse_marker_chunk(&body).unwrap();
    assert_eq!(m.by_id(2).unwrap().position, 10);
    assert_eq!(m.by_id(3).unwrap().name, "c");
    assert!(m.by_id(99).is_none());
}

#[test]
fn rejects_zero_id() {
    let body = pack_chunk(&[(0, 0, "bad")]);
    assert!(matches!(
        parse_marker_chunk(&body),
        Err(AiffError::InvalidValue {
            what: "MarkerId",
            value: 0
        })
    ));
}

#[test]
fn rejects_negative_id() {
    let body = pack_chunk(&[(-1, 5, "x")]);
    assert!(matches!(
        parse_marker_chunk(&body),
        Err(AiffError::InvalidValue {
            what: "MarkerId",
            value: -1
        })
    ));
}

#[test]
fn rejects_duplicate_id() {
    let body = pack_chunk(&[(7, 0, "a"), (7, 10, "b")]);
    assert!(matches!(
        parse_marker_chunk(&body),
        Err(AiffError::DuplicateMarkerId(7))
    ));
}

#[test]
fn rejects_truncated_num_markers() {
    assert!(matches!(
        parse_marker_chunk(&[0x00]),
        Err(AiffError::Truncated(_))
    ));
    assert!(matches!(
        parse_marker_chunk(&[]),
        Err(AiffError::Truncated(_))
    ));
}

#[test]
fn rejects_truncated_marker_entry() {
    let mut body = 1_u16.to_be_bytes().to_vec();
    body.extend_from_slice(&[0x00, 0x01, 0x00]);
    assert!(matches!(
        parse_marker_chunk(&body),
        Err(AiffError::Truncated(_))
    ));
}

#[test]
fn rejects_truncated_pstring_body() {
    let mut body = 1_u16.to_be_bytes().to_vec();
    body.extend_from_slice(&1_i16.to_be_bytes());
    body.extend_from_slice(&0_u32.to_be_bytes());
    body.push(10);
    body.extend_from_slice(b"AB");
    assert!(matches!(
        parse_marker_chunk(&body),
        Err(AiffError::Truncated(_))
    ));
}

#[test]
fn tolerates_missing_pad_on_last_marker() {
    let mut body = 1_u16.to_be_bytes().to_vec();
    body.extend_from_slice(&3_i16.to_be_bytes());
    body.extend_from_slice(&42_u32.to_be_bytes());
    body.push(2);
    body.extend_from_slice(b"hi");
    let m = parse_marker_chunk(&body).unwrap();
    assert_eq!(m.markers[0].id, 3);
    assert_eq!(m.markers[0].position, 42);
    assert_eq!(m.markers[0].name, "hi");
}

#[test]
fn parses_marker_with_high_position() {
    let body = pack_chunk(&[(1, u32::MAX, "max")]);
    let m = parse_marker_chunk(&body).unwrap();
    assert_eq!(m.markers[0].position, u32::MAX);
}

#[test]
fn marker_write_round_trips_through_parse() {
    let chunk = MarkerChunk {
        markers: vec![
            Marker {
                id: 1,
                position: 0,
                name: "begin".into(),
            },
            Marker {
                id: 2,
                position: 44_100,
                name: "end".into(),
            },
            Marker {
                id: 3,
                position: 88_200,
                name: "".into(),
            },
        ],
    };
    let bytes = write_marker_chunk(&chunk);
    let parsed = parse_marker_chunk(&bytes).unwrap();
    assert_eq!(parsed, chunk);
}

#[test]
fn marker_write_empty_chunk() {
    let chunk = MarkerChunk::default();
    let bytes = write_marker_chunk(&chunk);
    assert_eq!(bytes, vec![0, 0]);
    let parsed = parse_marker_chunk(&bytes).unwrap();
    assert_eq!(parsed, chunk);
}

#[test]
fn marker_write_matches_hand_packed_layout() {
    let chunk = MarkerChunk {
        markers: vec![Marker {
            id: 7,
            position: 256,
            name: "cue".into(),
        }],
    };
    let bytes = write_marker_chunk(&chunk);
    let expected = pack_chunk(&[(7, 256, "cue")]);
    assert_eq!(bytes, expected);
}

#[test]
fn marker_write_preserves_document_order() {
    let chunk = MarkerChunk {
        markers: vec![
            Marker {
                id: 10,
                position: 100,
                name: "z".into(),
            },
            Marker {
                id: 5,
                position: 50,
                name: "a".into(),
            },
            Marker {
                id: 7,
                position: 200,
                name: "m".into(),
            },
        ],
    };
    let bytes = write_marker_chunk(&chunk);
    let parsed = parse_marker_chunk(&bytes).unwrap();
    assert_eq!(parsed.markers[0].id, 10);
    assert_eq!(parsed.markers[1].id, 5);
    assert_eq!(parsed.markers[2].id, 7);
}
