//! Text chunks.

use oxideav_iff::aiff::{parse_text_chunk, write_text_chunk, TextChunk, TextKind};
#[test]
fn kind_round_trips_ck_ids() {
    for &k in &[
        TextKind::Name,
        TextKind::Author,
        TextKind::Copyright,
        TextKind::Annotation,
    ] {
        let id = k.ck_id();
        assert_eq!(TextKind::from_ck_id(&id), Some(k));
    }
    assert_eq!(TextKind::from_ck_id(b"COMM"), None);
    assert_eq!(TextKind::from_ck_id(b"SSND"), None);
    assert_eq!(TextKind::from_ck_id(b"COMT"), None);
}

#[test]
fn copyright_ck_id_matches_spec_literal() {
    assert_eq!(TextKind::Copyright.ck_id(), [b'(', b'c', b')', b' ']);
}

#[test]
fn parses_empty_body() {
    let c = parse_text_chunk(TextKind::Annotation, &[]).unwrap();
    assert!(c.is_empty());
    assert_eq!(c.len(), 0);
    assert_eq!(c.as_str(), Some(""));
    assert_eq!(c.as_string_lossy(), "");
}

#[test]
fn preserves_ascii_verbatim() {
    let body = b"Helicopter take-off";
    let c = parse_text_chunk(TextKind::Name, body).unwrap();
    assert_eq!(c.text, body);
    assert_eq!(c.len(), body.len());
    assert!(!c.is_empty());
    assert_eq!(c.as_str(), Some("Helicopter take-off"));
}

#[test]
fn preserves_non_ascii_bytes_for_legacy_files() {
    let body = [b'a', 0xa9, b'b'];
    let c = parse_text_chunk(TextKind::Copyright, &body).unwrap();
    assert_eq!(c.text, body);
    assert!(c.as_str().is_none());
    let lossy = c.as_string_lossy();
    assert!(lossy.contains('a'));
    assert!(lossy.contains('b'));
}

#[test]
fn write_round_trips_simple_body() {
    let body = b"author 1, author 2".to_vec();
    let c = TextChunk {
        kind: TextKind::Author,
        text: body.clone(),
    };
    let bytes = write_text_chunk(&c);
    assert_eq!(bytes, body);
    let parsed = parse_text_chunk(TextKind::Author, &bytes).unwrap();
    assert_eq!(parsed, c);
}

#[test]
fn write_round_trips_empty_body() {
    let c = TextChunk {
        kind: TextKind::Name,
        text: Vec::new(),
    };
    let bytes = write_text_chunk(&c);
    assert!(bytes.is_empty());
    let parsed = parse_text_chunk(TextKind::Name, &bytes).unwrap();
    assert_eq!(parsed, c);
}

#[test]
fn odd_length_body_does_not_need_inner_pad() {
    let body = b"hello";
    let c = parse_text_chunk(TextKind::Annotation, body).unwrap();
    assert_eq!(c.len(), 5);
    assert_eq!(c.text, body);
}

#[test]
fn text_accepts_large_body() {
    let body: Vec<u8> = (0..4096_usize).map(|i| ((i % 95) + 32) as u8).collect();
    let c = parse_text_chunk(TextKind::Annotation, &body).unwrap();
    assert_eq!(c.len(), 4096);
    assert_eq!(c.text, body);
    assert!(c.as_str().is_some());
}
