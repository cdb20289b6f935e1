//! The chunk walker.

use oxideav_iff::aiff::{
    frame_chunk, write_fver_chunk, AiffError, Chunk, ChunkIter, AIFC_VERSION_1,
};
#[test]
fn empty_buffer_yields_no_chunks() {
    let mut it = ChunkIter::new(&[]);
    assert!(it.next().is_none());
}

#[test]
fn single_even_size_chunk() {
    let buf = [b'C', b'O', b'M', b'M', 0, 0, 0, 4, 0xde, 0xad, 0xbe, 0xef];
    let chunks: Vec<Chunk> = ChunkIter::new(&buf)
        .collect()
        .into_iter()
        .collect::<Result<Vec<Chunk>, AiffError>>()
        .unwrap();
    assert_eq!(chunks.len(), 1);
    assert_eq!(&chunks[0].id, b"COMM");
    assert_eq!(chunks[0].size, 4);
    assert_eq!(chunks[0].data, &[0xde, 0xad, 0xbe, 0xef]);
}

#[test]
fn odd_size_chunk_consumes_pad_byte() {
    let buf = [
        b'N', b'A', b'M', b'E', 0, 0, 0, 3, b'A', b'B', b'C', 0x00, b'C', b'O', b'M', b'T', 0,
        0, 0, 0,
    ];
    let chunks: Vec<Chunk> = ChunkIter::new(&buf)
        .collect()
        .into_iter()
        .collect::<Result<Vec<Chunk>, AiffError>>()
        .unwrap();
    assert_eq!(chunks.len(), 2);
    assert_eq!(&chunks[0].id, b"NAME");
    assert_eq!(chunks[0].size, 3);
    assert_eq!(chunks[0].data, b"ABC");
    assert_eq!(&chunks[1].id, b"COMT");
    assert_eq!(chunks[1].size, 0);
    assert!(chunks[1].data.is_empty());
}

#[test]
fn odd_size_chunk_at_eof_tolerates_missing_pad() {
    let buf = [b'A', b'B', b'C', b'D', 0, 0, 0, 1, 0x42];
    let chunks: Vec<Chunk> = ChunkIter::new(&buf)
        .collect()
        .into_iter()
        .collect::<Result<Vec<Chunk>, AiffError>>()
        .unwrap();
    assert_eq!(chunks.len(), 1);
    assert_eq!(&chunks[0].id, b"ABCD");
    assert_eq!(chunks[0].size, 1);
    assert_eq!(chunks[0].data, &[0x42]);
}

#[test]
fn truncated_header_errors() {
    let buf = [b'X', b'Y', b'Z'];
    let mut it = ChunkIter::new(&buf);
    assert!(matches!(it.next(), Some(Err(AiffError::Truncated(_)))));
    assert!(it.next().is_none());
}

#[test]
fn oversized_chunk_errors() {
    let buf = [b'X', b'Y', b'Z', b'W', 0x00, 0x0F, 0x42, 0x40, 0, 0, 0, 0];
    let mut it = ChunkIter::new(&buf);
    let first = it.next().unwrap();
    assert!(matches!(
        first,
        Err(AiffError::OversizedChunk { ref id, declared: 1_000_000, .. })
            if *id == *b"XYZW"
    ));
    assert!(it.next().is_none());
}

#[test]
fn id_str_round_trips() {
    let buf = [b'C', b'O', b'M', b'M', 0, 0, 0, 0];
    let c = ChunkIter::new(&buf).next().unwrap().unwrap();
    assert_eq!(c.id_str(), Some("COMM"));
}

#[test]
fn id_str_returns_none_for_non_ascii() {
    let buf = [0x00, 0xff, 0x10, 0x80, 0, 0, 0, 0];
    let c = ChunkIter::new(&buf).next().unwrap().unwrap();
    assert_eq!(c.id_str(), None);
}

#[test]
fn frame_chunk_even_body_has_no_pad() {
    let framed = frame_chunk(b"COMT", &[0xde, 0xad, 0xbe, 0xef]).unwrap();
    assert_eq!(framed.len(), 12);
    assert_eq!(&framed[..4], b"COMT");
    assert_eq!(&framed[4..8], &4u32.to_be_bytes());
    assert_eq!(&framed[8..], &[0xde, 0xad, 0xbe, 0xef]);
}

#[test]
fn frame_chunk_odd_body_gets_pad_byte() {
    let framed = frame_chunk(b"NAME", b"ABC").unwrap();
    assert_eq!(framed.len(), 12);
    assert_eq!(&framed[4..8], &3u32.to_be_bytes());
    assert_eq!(&framed[8..11], b"ABC");
    assert_eq!(framed[11], 0x00);
}

#[test]
fn frame_chunk_empty_body() {
    let framed = frame_chunk(b"FVER", &[]).unwrap();
    assert_eq!(framed.len(), 8);
    assert_eq!(&framed[..4], b"FVER");
    assert_eq!(&framed[4..8], &0u32.to_be_bytes());
}

#[test]
fn frame_chunk_is_inverse_of_iter() {
    let mut buf = frame_chunk(b"NAME", b"hello").unwrap();
    buf.extend(frame_chunk(b"AUTH", b"me!!").unwrap());
    let chunks: Vec<Chunk> = ChunkIter::new(&buf)
        .collect()
        .into_iter()
        .collect::<Result<Vec<Chunk>, AiffError>>()
        .unwrap();
    assert_eq!(chunks.len(), 2);
    assert_eq!(&chunks[0].id, b"NAME");
    assert_eq!(chunks[0].size, 5);
    assert_eq!(chunks[0].data, b"hello");
    assert_eq!(&chunks[1].id, b"AUTH");
    assert_eq!(chunks[1].size, 4);
    assert_eq!(chunks[1].data, b"me!!");
}

#[test]
fn write_fver_round_trips_through_frame_and_iter() {
    let body = write_fver_chunk(AIFC_VERSION_1);
    assert_eq!(body, AIFC_VERSION_1.to_be_bytes());
    let framed = frame_chunk(b"FVER", &body).unwrap();
    let c = ChunkIter::new(&framed).next().unwrap().unwrap();
    assert_eq!(&c.id, b"FVER");
    assert_eq!(c.size, 4);
    let ts = u32::from_be_bytes([c.data[0], c.data[1], c.data[2], c.data[3]]);
    assert_eq!(ts, AIFC_VERSION_1);
    assert_eq!(ts, 0xA280_5140);
}
