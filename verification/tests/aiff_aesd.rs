//! The audio recording chunk.

use oxideav_iff::aiff::{parse_aesd_chunk, write_aesd_chunk, AesdChunk, AiffError, Emphasis};
#[test]
fn parses_24_byte_chunk() {
    let mut body = [0u8; 24];
    body[0] = 0b0001_0100;
    for (i, b) in body.iter_mut().enumerate().skip(1) {
        *b = i as u8;
    }
    let c = parse_aesd_chunk(&body).unwrap();
    assert_eq!(c.status[0], 0b0001_0100);
    assert_eq!(c.status[23], 23);
    assert_eq!(c.emphasis().bits, 0b101);
}

#[test]
fn aesd_rejects_truncated_chunk() {
    assert!(matches!(
        parse_aesd_chunk(&[0u8; 23]),
        Err(AiffError::Truncated("AESD chunk"))
    ));
    assert!(matches!(
        parse_aesd_chunk(&[]),
        Err(AiffError::Truncated("AESD chunk"))
    ));
}

#[test]
fn aesd_rejects_oversized_chunk() {
    let r = parse_aesd_chunk(&[0u8; 25]);
    assert!(matches!(
        r,
        Err(AiffError::InvalidValue {
            what: "AESD ckSize",
            value: 25
        })
    ));
}

#[test]
fn emphasis_zero_means_no_emphasis_bits_set() {
    let c = AesdChunk { status: [0u8; 24] };
    assert_eq!(c.emphasis().bits, 0);
}

#[test]
fn emphasis_isolates_bits_2_through_4() {
    let mut s = [0u8; 24];
    s[0] = 0xFF;
    let c = AesdChunk { status: s };
    assert_eq!(c.emphasis().bits, 0b111);
}

#[test]
fn aesd_write_round_trips() {
    let mut s = [0u8; 24];
    for (i, b) in s.iter_mut().enumerate() {
        *b = (i * 7) as u8;
    }
    let c = AesdChunk { status: s };
    let bytes = write_aesd_chunk(&c);
    let parsed = parse_aesd_chunk(&bytes).unwrap();
    assert_eq!(parsed, c);
}
