//! The comments chunk.

use oxideav_iff::aiff::{
    parse_comments_chunk, write_comments_chunk, AiffError, Comment, CommentsChunk, Marker,
    MarkerChunk,
};
fn pack_one(timestamp: u32, marker: i16, text: &str) -> Vec<u8> {
    let mut v = Vec::new();
    v.extend_from_slice(&timestamp.to_be_bytes());
    v.extend_from_slice(&marker.to_be_bytes());
    let text_b = text.as_bytes();
    v.extend_from_slice(&(text_b.len() as u16).to_be_bytes());
    v.extend_from_slice(text_b);
    if text_b.len() % 2 == 1 {
        v.push(0);
    }
    v
}

fn pack_chunk(comments: &[(u32, i16, &str)]) -> Vec<u8> {
    let mut body = Vec::new();
    body.extend_from_slice(&(comments.len() as u16).to_be_bytes());
    for (t, m, s) in comments {
        body.extend_from_slice(&pack_one(*t, *m, s));
    }
    body
}

#[test]
fn parses_empty_comment_list() {
    let body = pack_chunk(&[]);
    let c = parse_comments_chunk(&body).unwrap();
    assert!(c.comments.is_empty());
}

#[test]
fn parses_single_comment_with_even_text() {
    let body = pack_chunk(&[(0, 0, "abcd")]);
    let c = parse_comments_chunk(&body).unwrap();
    assert_eq!(c.comments.len(), 1);
    assert_eq!(c.comments[0].timestamp, 0);
    assert_eq!(c.comments[0].marker, 0);
    assert_eq!(c.comments[0].text, "abcd");
    assert!(c.comments[0].linked_marker().is_none());
}

#[test]
fn parses_single_comment_with_odd_text() {
    let body = pack_chunk(&[(1234, 0, "hi!")]);
    let c = parse_comments_chunk(&body).unwrap();
    assert_eq!(c.comments[0].text, "hi!");
    assert_eq!(c.comments[0].timestamp, 1234);
}

#[test]
fn parses_multiple_comments_with_mixed_pad() {
    let body = pack_chunk(&[(10, 0, "a"), (20, 0, "bb"), (30, 0, "ccc"), (40, 0, "dddd")]);
    let c = parse_comments_chunk(&body).unwrap();
    assert_eq!(c.comments.len(), 4);
    assert_eq!(c.comments[0].text, "a");
    assert_eq!(c.comments[1].text, "bb");
    assert_eq!(c.comments[2].text, "ccc");
    assert_eq!(c.comments[3].text, "dddd");
}

#[test]
fn parses_comment_linked_to_marker() {
    let body = pack_chunk(&[(0, 7, "see marker 7")]);
    let c = parse_comments_chunk(&body).unwrap();
    assert_eq!(c.comments[0].marker, 7);
    assert_eq!(c.comments[0].linked_marker(), Some(7));

    let markers = MarkerChunk {
        markers: vec![Marker {
            id: 7,
            position: 1024,
            name: "intro".into(),
        }],
    };
    let m = c.comments[0].resolve_marker(&markers).unwrap();
    assert_eq!(m.position, 1024);
    assert_eq!(m.name, "intro");
}

#[test]
fn resolve_marker_returns_none_for_unlinked() {
    let body = pack_chunk(&[(0, 0, "free-floating")]);
    let c = parse_comments_chunk(&body).unwrap();
    let markers = MarkerChunk {
        markers: vec![Marker {
            id: 1,
            position: 0,
            name: "x".into(),
        }],
    };
    assert!(c.comments[0].resolve_marker(&markers).is_none());
}

#[test]
fn comment_resolve_marker_returns_none_when_id_missing() {
    let body = pack_chunk(&[(0, 99, "dangling")]);
    let c = parse_comments_chunk(&body).unwrap();
    let markers = MarkerChunk {
        markers: vec![Marker {
            id: 1,
            position: 0,
            name: "x".into(),
        }],
    };
    assert!(c.comments[0].resolve_marker(&markers).is_none());
}

#[test]
fn empty_text_round_trips() {
    let body = pack_chunk(&[(99, 0, "")]);
    let c = parse_comments_chunk(&body).unwrap();
    assert_eq!(c.comments[0].text, "");
}

#[test]
fn rejects_truncated_num_comments() {
    assert!(matches!(
        parse_comments_chunk(&[]),
        Err(AiffError::Truncated(_))
    ));
    assert!(matches!(
        parse_comments_chunk(&[0u8]),
        Err(AiffError::Truncated(_))
    ));
}

#[test]
fn rejects_truncated_comment_header() {
    let mut body = 1_u16.to_be_bytes().to_vec();
    body.extend_from_slice(&[0u8; 5]);
    assert!(matches!(
        parse_comments_chunk(&body),
        Err(AiffError::Truncated(_))
    ));
}

#[test]
fn rejects_truncated_comment_text() {
    let mut body = 1_u16.to_be_bytes().to_vec();
    body.extend_from_slice(&0_u32.to_be_bytes());
    body.extend_from_slice(&0_i16.to_be_bytes());
    body.extend_from_slice(&10_u16.to_be_bytes());
    body.extend_from_slice(b"AAAA");
    assert!(matches!(
        parse_comments_chunk(&body),
        Err(AiffError::Truncated(_))
    ));
}

#[test]
fn write_round_trip() {
    let c = CommentsChunk {
        comments: vec![
            Comment {
                timestamp: 100,
                marker: 1,
                text: "first".into(),
            },
            Comment {
                timestamp: 200,
                marker: 0,
                text: "second comment".into(),
            },
            Comment {
                timestamp: 300,
                marker: 3,
                text: "odd".into(),
            },
        ],
    };
    let bytes = write_comments_chunk(&c);
    let parsed = parse_comments_chunk(&bytes).unwrap();
    assert_eq!(parsed, c);
}

#[test]
fn comment_write_empty_chunk() {
    let c = CommentsChunk::default();
    let bytes = write_comments_chunk(&c);
    assert_eq!(bytes, vec![0u8, 0u8]);
    let parsed = parse_comments_chunk(&bytes).unwrap();
    assert!(parsed.comments.is_empty());
}

#[test]
fn negative_marker_id_clamps_to_none() {
    let mut body = 1_u16.to_be_bytes().to_vec();
    body.extend_from_slice(&0_u32.to_be_bytes());
    body.extend_from_slice(&(-1_i16).to_be_bytes());
    body.extend_from_slice(&0_u16.to_be_bytes());
    let c = parse_comments_chunk(&body).unwrap();
    assert_eq!(c.comments[0].marker, -1);
    assert!(c.comments[0].linked_marker().is_none());
}
