//! MIDI data chunks.

use oxideav_iff::aiff::{parse_midi_chunk, write_midi_chunk, MidiDataChunk};
#[test]
fn parses_empty_chunk() {
    let c = parse_midi_chunk(&[]).unwrap();
    assert!(c.is_empty());
    assert_eq!(c.len(), 0);
    assert!(!c.is_sysex());
}

#[test]
fn preserves_byte_stream_verbatim() {
    let body = [
        0xF0, 0x41, 0x10, 0x42, 0x12, 0x40, 0x00, 0x7F, 0x00, 0x41, 0xF7,
    ];
    let c = parse_midi_chunk(&body).unwrap();
    assert_eq!(c.data, &body[..]);
    assert_eq!(c.len(), body.len());
    assert!(!c.is_empty());
    assert!(c.is_sysex());
}

#[test]
fn is_sysex_false_when_first_byte_is_not_f0() {
    let body = [0x90, 0x3C, 0x7F];
    let c = parse_midi_chunk(&body).unwrap();
    assert!(!c.is_sysex());
}

#[test]
fn midi_write_round_trips() {
    let body = vec![0xF0, 0x7E, 0x7F, 0x09, 0x01, 0xF7];
    let c = MidiDataChunk { data: body.clone() };
    let bytes = write_midi_chunk(&c);
    assert_eq!(bytes, body);
    let parsed = parse_midi_chunk(&bytes).unwrap();
    assert_eq!(parsed, c);
}

#[test]
fn write_round_trips_empty_chunk() {
    let c = MidiDataChunk { data: Vec::new() };
    let bytes = write_midi_chunk(&c);
    assert!(bytes.is_empty());
    let parsed = parse_midi_chunk(&bytes).unwrap();
    assert_eq!(parsed, c);
}

#[test]
fn classifies_odd_length_stream() {
    let body = [0xC0, 0x00, 0xB0, 0x07, 0x40];
    let c = parse_midi_chunk(&body).unwrap();
    assert_eq!(c.len(), 5);
    assert!(!c.is_sysex());
}

#[test]
fn midi_accepts_large_body() {
    let body: Vec<u8> = (0..1024_usize).map(|i| (i % 256) as u8).collect();
    let c = parse_midi_chunk(&body).unwrap();
    assert_eq!(c.len(), 1024);
    assert_eq!(c.data, body);
}
