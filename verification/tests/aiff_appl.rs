//! Application chunks.

use oxideav_iff::aiff::{
    parse_appl_chunk, write_appl_chunk, AiffError, ApplicationChunk, ApplicationDialect,
};
#[test]
fn parses_macintosh_signature_carries_raw_data() {
    let mut body = Vec::new();
    body.extend_from_slice(b"TEST");
    body.extend_from_slice(&[1, 2, 3, 4, 5, 6]);
    let c = parse_appl_chunk(&body).unwrap();
    assert_eq!(&c.signature, b"TEST");
    assert_eq!(c.data, vec![1, 2, 3, 4, 5, 6]);
    assert_eq!(c.dialect(), ApplicationDialect::Macintosh);
    assert_eq!(c.application_name(), None);
    assert_eq!(c.payload_after_name(), &[1, 2, 3, 4, 5, 6]);
}

#[test]
fn parses_appleii_signature_decodes_leading_pstring() {
    let mut body = Vec::new();
    body.extend_from_slice(b"pdos");
    body.push(3);
    body.extend_from_slice(b"Pic");
    body.extend_from_slice(&[0xAA, 0xBB]);
    let c = parse_appl_chunk(&body).unwrap();
    assert_eq!(c.dialect(), ApplicationDialect::AppleII);
    assert_eq!(c.application_name(), Some("Pic".to_string()));
    assert_eq!(c.payload_after_name(), &[0xAA, 0xBB]);
}

#[test]
fn payload_after_name_with_zero_length_pstring() {
    let mut body = Vec::new();
    body.extend_from_slice(b"pdos");
    body.push(0);
    body.extend_from_slice(&[0xAA, 0xBB, 0xCC]);
    let c = parse_appl_chunk(&body).unwrap();
    assert_eq!(c.application_name(), Some("".to_string()));
    assert_eq!(c.payload_after_name(), &[0xAA, 0xBB, 0xCC]);
}

#[test]
fn parses_stoc_signature_decodes_leading_pstring() {
    let mut body = Vec::new();
    body.extend_from_slice(b"stoc");
    body.push(8);
    body.extend_from_slice(b"MyEditor");
    body.extend_from_slice(&[0xCC, 0xDD, 0xEE]);
    let c = parse_appl_chunk(&body).unwrap();
    assert_eq!(c.dialect(), ApplicationDialect::NonApple);
    assert_eq!(c.application_name(), Some("MyEditor".to_string()));
    assert_eq!(c.payload_after_name(), &[0xCC, 0xDD, 0xEE]);
}

#[test]
fn stoc_with_short_pstring_payload_starts_after_name() {
    let mut body = Vec::new();
    body.extend_from_slice(b"stoc");
    body.push(3);
    body.extend_from_slice(b"abc");
    body.extend_from_slice(&[0x11, 0x22]);
    let c = parse_appl_chunk(&body).unwrap();
    assert_eq!(c.application_name(), Some("abc".to_string()));
    assert_eq!(c.payload_after_name(), &[0x11, 0x22]);
}

#[test]
fn empty_data_has_no_leading_name() {
    let body = b"pdos";
    let c = parse_appl_chunk(body).unwrap();
    assert_eq!(c.application_name(), None);
    assert!(c.payload_after_name().is_empty());
}

#[test]
fn truncated_chunk_errors() {
    assert!(matches!(
        parse_appl_chunk(&[]),
        Err(AiffError::Truncated("APPL signature"))
    ));
    assert!(matches!(
        parse_appl_chunk(b"abc"),
        Err(AiffError::Truncated("APPL signature"))
    ));
}

#[test]
fn malformed_pstring_returns_none_name() {
    let mut body = Vec::new();
    body.extend_from_slice(b"pdos");
    body.push(99);
    body.extend_from_slice(b"AB");
    let c = parse_appl_chunk(&body).unwrap();
    assert_eq!(c.application_name(), None);
}

#[test]
fn write_round_trips_macintosh() {
    let c = ApplicationChunk {
        signature: *b"VENZ",
        data: vec![0xDE, 0xAD, 0xBE, 0xEF],
    };
    let bytes = write_appl_chunk(&c);
    let parsed = parse_appl_chunk(&bytes).unwrap();
    assert_eq!(parsed, c);
}

#[test]
fn write_round_trips_pdos() {
    let mut data = Vec::new();
    data.push(3);
    data.extend_from_slice(b"Pic");
    data.extend_from_slice(&[1, 2, 3]);
    let c = ApplicationChunk {
        signature: *b"pdos",
        data,
    };
    let bytes = write_appl_chunk(&c);
    let parsed = parse_appl_chunk(&bytes).unwrap();
    assert_eq!(parsed, c);
    assert_eq!(parsed.application_name(), Some("Pic".to_string()));
    assert_eq!(parsed.payload_after_name(), &[1, 2, 3]);
}
