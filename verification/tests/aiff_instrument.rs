//! The instrument chunk.

use oxideav_iff::aiff::{
    parse_instrument_chunk, write_instrument_chunk, AiffError, InstrumentChunk, Loop, Marker,
    MarkerChunk, PlayMode,
};
#[allow(clippy::too_many_arguments)]
fn pack(
    base_note: u8,
    detune: i8,
    low_note: u8,
    high_note: u8,
    low_velocity: u8,
    high_velocity: u8,
    gain: i16,
    sustain: (i16, i16, i16),
    release: (i16, i16, i16),
) -> Vec<u8> {
    let mut v = Vec::with_capacity(20);
    v.push(base_note);
    v.push(detune as u8);
    v.push(low_note);
    v.push(high_note);
    v.push(low_velocity);
    v.push(high_velocity);
    v.extend_from_slice(&gain.to_be_bytes());
    v.extend_from_slice(&sustain.0.to_be_bytes());
    v.extend_from_slice(&sustain.1.to_be_bytes());
    v.extend_from_slice(&sustain.2.to_be_bytes());
    v.extend_from_slice(&release.0.to_be_bytes());
    v.extend_from_slice(&release.1.to_be_bytes());
    v.extend_from_slice(&release.2.to_be_bytes());
    v
}

fn fixed_markers() -> MarkerChunk {
    MarkerChunk {
        markers: vec![
            Marker {
                id: 1,
                position: 0,
                name: "begin".into(),
            },
            Marker {
                id: 2,
                position: 1_000,
                name: "end".into(),
            },
            Marker {
                id: 3,
                position: 500,
                name: "mid".into(),
            },
        ],
    }
}

#[test]
fn parses_minimal_no_looping() {
    let body = pack(60, 0, 48, 72, 1, 127, 0, (0, 0, 0), (0, 0, 0));
    let inst = parse_instrument_chunk(&body).unwrap();
    assert_eq!(inst.base_note, 60);
    assert_eq!(inst.detune, 0);
    assert_eq!(inst.low_note, 48);
    assert_eq!(inst.high_note, 72);
    assert_eq!(inst.low_velocity, 1);
    assert_eq!(inst.high_velocity, 127);
    assert_eq!(inst.gain, 0);
    assert_eq!(inst.sustain_loop.play_mode, PlayMode::NoLooping);
    assert_eq!(inst.release_loop.play_mode, PlayMode::NoLooping);
    assert_eq!(inst.sustain_loop.begin_loop, 0);
    assert_eq!(inst.sustain_loop.end_loop, 0);
    assert!(!inst.sustain_loop.is_effective());
    assert!(!inst.release_loop.is_effective());
}

#[test]
fn parses_forward_loop() {
    let body = pack(60, 0, 0, 127, 1, 127, 0, (1, 1, 2), (0, 0, 0));
    let inst = parse_instrument_chunk(&body).unwrap();
    assert_eq!(inst.sustain_loop.play_mode, PlayMode::Forward);
    assert_eq!(inst.sustain_loop.begin_loop, 1);
    assert_eq!(inst.sustain_loop.end_loop, 2);
    assert!(inst.sustain_loop.is_effective());

    let markers = fixed_markers();
    let r = inst.resolve_sustain_loop(&markers).unwrap();
    assert_eq!(r.play_mode, PlayMode::Forward);
    assert_eq!(r.begin.id, 1);
    assert_eq!(r.end.id, 2);
    assert_eq!(r.begin.position, 0);
    assert_eq!(r.end.position, 1_000);
    assert!(inst.resolve_release_loop(&markers).is_none());
}

#[test]
fn parses_ping_pong_loop() {
    let body = pack(60, 0, 0, 127, 1, 127, 0, (2, 1, 2), (0, 0, 0));
    let inst = parse_instrument_chunk(&body).unwrap();
    assert_eq!(inst.sustain_loop.play_mode, PlayMode::ForwardBackward);
}

#[test]
fn parses_release_loop_separately() {
    let body = pack(60, 0, 0, 127, 1, 127, 0, (0, 0, 0), (1, 1, 2));
    let inst = parse_instrument_chunk(&body).unwrap();
    let markers = fixed_markers();
    assert!(inst.resolve_sustain_loop(&markers).is_none());
    let r = inst.resolve_release_loop(&markers).unwrap();
    assert_eq!(r.play_mode, PlayMode::Forward);
    assert_eq!(r.begin.id, 1);
    assert_eq!(r.end.id, 2);
}

#[test]
fn detune_negative_round_trips() {
    let body = pack(60, -25, 0, 127, 1, 127, 0, (0, 0, 0), (0, 0, 0));
    let inst = parse_instrument_chunk(&body).unwrap();
    assert_eq!(inst.detune, -25);
}

#[test]
fn gain_signed_round_trips() {
    let body = pack(60, 0, 0, 127, 1, 127, -6, (0, 0, 0), (0, 0, 0));
    let inst = parse_instrument_chunk(&body).unwrap();
    assert_eq!(inst.gain, -6);
}

#[test]
fn rejects_unknown_play_mode() {
    let body = pack(60, 0, 0, 127, 1, 127, 0, (3, 1, 2), (0, 0, 0));
    let r = parse_instrument_chunk(&body);
    assert!(matches!(
        r,
        Err(AiffError::InvalidValue {
            what: "playMode",
            value: 3
        })
    ));
}

#[test]
fn rejects_midi_note_out_of_range() {
    let body = pack(128, 0, 0, 127, 1, 127, 0, (0, 0, 0), (0, 0, 0));
    let r = parse_instrument_chunk(&body);
    assert!(matches!(
        r,
        Err(AiffError::InvalidValue {
            what: "baseNote",
            value: 128
        })
    ));
}

#[test]
fn rejects_detune_out_of_range() {
    let body = pack(60, 51, 0, 127, 1, 127, 0, (0, 0, 0), (0, 0, 0));
    let r = parse_instrument_chunk(&body);
    assert!(matches!(
        r,
        Err(AiffError::InvalidValue {
            what: "detune",
            value: 51
        })
    ));
    let body = pack(60, -51, 0, 127, 1, 127, 0, (0, 0, 0), (0, 0, 0));
    let r = parse_instrument_chunk(&body);
    assert!(matches!(
        r,
        Err(AiffError::InvalidValue {
            what: "detune",
            value: -51
        })
    ));
}

#[test]
fn rejects_zero_velocity() {
    let body = pack(60, 0, 0, 127, 0, 127, 0, (0, 0, 0), (0, 0, 0));
    let r = parse_instrument_chunk(&body);
    assert!(matches!(
        r,
        Err(AiffError::InvalidValue {
            what: "lowVelocity",
            value: 0
        })
    ));
}

#[test]
fn instrument_rejects_truncated_chunk() {
    let r = parse_instrument_chunk(&[0u8; 19]);
    assert!(matches!(r, Err(AiffError::Truncated("INST chunk"))));
}

#[test]
fn instrument_rejects_oversized_chunk() {
    let r = parse_instrument_chunk(&[0u8; 21]);
    assert!(matches!(
        r,
        Err(AiffError::InvalidValue {
            what: "INST ckSize",
            ..
        })
    ));
}

#[test]
fn resolve_returns_none_when_begin_marker_missing() {
    let body = pack(60, 0, 0, 127, 1, 127, 0, (1, 99, 2), (0, 0, 0));
    let inst = parse_instrument_chunk(&body).unwrap();
    let markers = fixed_markers();
    assert!(inst.resolve_sustain_loop(&markers).is_none());
}

#[test]
fn resolve_returns_none_when_end_marker_missing() {
    let body = pack(60, 0, 0, 127, 1, 127, 0, (1, 1, 99), (0, 0, 0));
    let inst = parse_instrument_chunk(&body).unwrap();
    let markers = fixed_markers();
    assert!(inst.resolve_sustain_loop(&markers).is_none());
}

#[test]
fn resolve_returns_none_when_begin_after_end_in_marker_table() {
    let body = pack(60, 0, 0, 127, 1, 127, 0, (1, 2, 1), (0, 0, 0));
    let inst = parse_instrument_chunk(&body).unwrap();
    let markers = fixed_markers();
    assert!(inst.resolve_sustain_loop(&markers).is_none());
}

#[test]
fn resolve_returns_none_when_endpoints_share_position() {
    let markers = MarkerChunk {
        markers: vec![
            Marker {
                id: 1,
                position: 500,
                name: "a".into(),
            },
            Marker {
                id: 2,
                position: 500,
                name: "b".into(),
            },
        ],
    };
    let body = pack(60, 0, 0, 127, 1, 127, 0, (1, 1, 2), (0, 0, 0));
    let inst = parse_instrument_chunk(&body).unwrap();
    assert!(inst.resolve_sustain_loop(&markers).is_none());
}

#[test]
fn resolve_returns_none_when_play_mode_is_none() {
    let body = pack(60, 0, 0, 127, 1, 127, 0, (0, 1, 2), (0, 0, 0));
    let inst = parse_instrument_chunk(&body).unwrap();
    let markers = fixed_markers();
    assert!(inst.resolve_sustain_loop(&markers).is_none());
}

#[test]
fn resolve_returns_none_when_endpoints_are_equal_ids() {
    let body = pack(60, 0, 0, 127, 1, 127, 0, (1, 1, 1), (0, 0, 0));
    let inst = parse_instrument_chunk(&body).unwrap();
    assert!(!inst.sustain_loop.is_effective());
    let markers = fixed_markers();
    assert!(inst.resolve_sustain_loop(&markers).is_none());
}

#[test]
fn instrument_write_round_trips_through_parse() {
    let inst = InstrumentChunk {
        base_note: 60,
        detune: -25,
        low_note: 48,
        high_note: 72,
        low_velocity: 1,
        high_velocity: 127,
        gain: -6,
        sustain_loop: Loop {
            play_mode: PlayMode::Forward,
            begin_loop: 1,
            end_loop: 2,
        },
        release_loop: Loop {
            play_mode: PlayMode::ForwardBackward,
            begin_loop: 3,
            end_loop: 4,
        },
    };
    let bytes = write_instrument_chunk(&inst);
    let parsed = parse_instrument_chunk(&bytes).unwrap();
    assert_eq!(parsed, inst);
}

#[test]
fn instrument_write_matches_hand_packed_layout() {
    let inst = InstrumentChunk {
        base_note: 60,
        detune: 5,
        low_note: 36,
        high_note: 96,
        low_velocity: 1,
        high_velocity: 127,
        gain: 3,
        sustain_loop: Loop {
            play_mode: PlayMode::Forward,
            begin_loop: 1,
            end_loop: 2,
        },
        release_loop: Loop {
            play_mode: PlayMode::NoLooping,
            begin_loop: 0,
            end_loop: 0,
        },
    };
    let bytes = write_instrument_chunk(&inst);
    let expected = pack(60, 5, 36, 96, 1, 127, 3, (1, 1, 2), (0, 0, 0));
    assert_eq!(bytes.as_slice(), expected.as_slice());
}

#[test]
fn write_emits_exactly_20_bytes() {
    let inst = InstrumentChunk {
        base_note: 60,
        detune: 0,
        low_note: 0,
        high_note: 127,
        low_velocity: 1,
        high_velocity: 127,
        gain: 0,
        sustain_loop: Loop {
            play_mode: PlayMode::NoLooping,
            begin_loop: 0,
            end_loop: 0,
        },
        release_loop: Loop {
            play_mode: PlayMode::NoLooping,
            begin_loop: 0,
            end_loop: 0,
        },
    };
    let bytes = write_instrument_chunk(&inst);
    assert_eq!(bytes.len(), 20);
}

#[test]
fn write_preserves_negative_detune_and_gain() {
    let inst = InstrumentChunk {
        base_note: 60,
        detune: -50,
        low_note: 0,
        high_note: 127,
        low_velocity: 1,
        high_velocity: 127,
        gain: -12,
        sustain_loop: Loop {
            play_mode: PlayMode::NoLooping,
            begin_loop: 0,
            end_loop: 0,
        },
        release_loop: Loop {
            play_mode: PlayMode::NoLooping,
            begin_loop: 0,
            end_loop: 0,
        },
    };
    let bytes = write_instrument_chunk(&inst);
    let parsed = parse_instrument_chunk(&bytes).unwrap();
    assert_eq!(parsed.detune, -50);
    assert_eq!(parsed.gain, -12);
}
