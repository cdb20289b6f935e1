//! What is written to AIFF chunks is read back from them.

use oxideav_iff::aiff::form::parse_sound_data;
use oxideav_iff::aiff::{
    decode_extended, decode_sample_rate, encode_extended, encode_sample_rate, frame_chunk, parse,
    parse_comments_chunk, parse_common, parse_instrument_chunk, parse_marker_chunk,
    parse_saxel_chunk, write_comments_chunk, write_common_chunk, write_instrument_chunk,
    write_marker_chunk, write_saxel_chunk, write_sound_data, write_text_chunk, AiffError, Chunk,
    ChunkIter, Comment, CommentsChunk, CommonChunk, Extended, InstrumentChunk, Loop, Marker,
    MarkerChunk, PlayMode, Saxel, SaxelChunk, SoundData, TextChunk, TextKind,
};

fn hertz(n: u64) -> Extended {
    Extended::Finite {
        negative: false,
        mantissa: n,
        scale: 0,
    }
}

fn power(exponent: i32) -> f64 {
    if exponent >= -1022 {
        f64::from_bits(((exponent + 1023) as u64) << 52)
    } else {
        f64::from_bits(1 << (exponent + 1074))
    }
}

fn marker(id: i16, position: u32, name: &str) -> Marker {
    Marker {
        id,
        position,
        name: name.to_string(),
    }
}

fn common(compression: Option<[u8; 4]>, name: Option<&str>) -> CommonChunk {
    CommonChunk {
        num_channels: 2,
        num_sample_frames: 3,
        sample_size: 16,
        sample_rate: hertz(44_100),
        compression_type: compression,
        compression_name: name.map(|s| s.to_string()),
    }
}

#[test]
fn markers_keep_255_bytes_of_their_names() {
    let long = "x".repeat(300);
    let chunk = MarkerChunk {
        markers: vec![marker(1, 7, &long), marker(300, 0, "")],
    };
    let parsed = parse_marker_chunk(&write_marker_chunk(&chunk)).unwrap();
    assert_eq!(parsed.markers.len(), 2);
    assert_eq!(parsed.markers[0].name, "x".repeat(255));
    assert_eq!(parsed.markers[1], marker(300, 0, ""));
}

#[test]
fn a_name_that_is_cut_inside_a_character_is_repaired() {
    let name = format!("{}é", "x".repeat(254));
    let chunk = MarkerChunk {
        markers: vec![marker(1, 0, &name)],
    };
    let parsed = parse_marker_chunk(&write_marker_chunk(&chunk)).unwrap();
    assert_eq!(
        parsed.markers[0].name,
        format!("{}\u{FFFD}", "x".repeat(254))
    );
}

#[test]
fn ill_formed_names_are_repaired() {
    let body = [0, 1, 0, 5, 0, 0, 0, 9, 3, b'a', 0xFF, b'b'];
    let parsed = parse_marker_chunk(&body).unwrap();
    assert_eq!(parsed.markers[0], marker(5, 9, "a\u{FFFD}b"));
}

#[test]
fn the_last_pad_byte_may_be_missing() {
    let markers = MarkerChunk {
        markers: vec![marker(1, 2, "even"), marker(3, 4, "odd"), marker(5, 6, "")],
    };
    let d = write_marker_chunk(&markers);
    assert_eq!(parse_marker_chunk(&d), Ok(markers.clone()));
    assert_eq!(parse_marker_chunk(&d[..d.len() - 1]), Ok(markers));

    let comment = |text: &str| Comment {
        timestamp: 7,
        marker: 1,
        text: text.to_string(),
    };
    let comments = CommentsChunk {
        comments: vec![comment("odd"), comment("even"), comment("x")],
    };
    let d = write_comments_chunk(&comments);
    assert_eq!(parse_comments_chunk(&d), Ok(comments.clone()));
    assert_eq!(parse_comments_chunk(&d[..d.len() - 1]), Ok(comments));

    let saxel = |data: &[u8]| Saxel {
        id: -1,
        data: data.to_vec(),
    };
    let saxels = SaxelChunk {
        saxels: vec![saxel(&[1]), saxel(&[]), saxel(&[2, 3, 4])],
    };
    let d = write_saxel_chunk(&saxels);
    assert_eq!(parse_saxel_chunk(&d), Ok(saxels.clone()));
    assert_eq!(parse_saxel_chunk(&d[..d.len() - 1]), Ok(saxels));
}

#[test]
fn comments_keep_65535_bytes_of_their_texts() {
    let chunk = CommentsChunk {
        comments: vec![
            Comment {
                timestamp: 1,
                marker: -3,
                text: "y".repeat(70_000),
            },
            Comment {
                timestamp: 0xFFFF_FFFF,
                marker: 2,
                text: "odd".to_string(),
            },
        ],
    };
    let parsed = parse_comments_chunk(&write_comments_chunk(&chunk)).unwrap();
    assert_eq!(parsed.comments.len(), 2);
    assert_eq!(parsed.comments[0].text.len(), 65_535);
    assert_eq!(parsed.comments[0].marker, -3);
    assert_eq!(parsed.comments[1], chunk.comments[1]);
}

#[test]
fn saxels_keep_65535_bytes_and_65535_items() {
    let chunk = SaxelChunk {
        saxels: vec![Saxel {
            id: 4,
            data: vec![9; 65_537],
        }],
    };
    let parsed = parse_saxel_chunk(&write_saxel_chunk(&chunk)).unwrap();
    assert_eq!(parsed.saxels[0].data, vec![9; 65_535]);

    let many = SaxelChunk {
        saxels: vec![
            Saxel {
                id: 1,
                data: Vec::new(),
            };
            65_540
        ],
    };
    let parsed = parse_saxel_chunk(&write_saxel_chunk(&many)).unwrap();
    assert_eq!(parsed.saxels.len(), 65_535);
}

#[test]
fn instruments_come_back_unchanged() {
    let inst = InstrumentChunk {
        base_note: 127,
        detune: -50,
        low_note: 0,
        high_note: 64,
        low_velocity: 1,
        high_velocity: 127,
        gain: -6,
        sustain_loop: Loop {
            play_mode: PlayMode::ForwardBackward,
            begin_loop: 1,
            end_loop: -1,
        },
        release_loop: Loop {
            play_mode: PlayMode::NoLooping,
            begin_loop: 0,
            end_loop: 0,
        },
    };
    let bytes = write_instrument_chunk(&inst);
    assert_eq!(
        bytes,
        [127, 206, 0, 64, 1, 127, 255, 250, 0, 2, 0, 1, 255, 255, 0, 0, 0, 0, 0, 0]
    );
    assert_eq!(parse_instrument_chunk(&bytes), Ok(inst));
}

#[test]
fn resolved_loops_run_forward() {
    let markers = MarkerChunk {
        markers: vec![marker(1, 10, "a"), marker(2, 20, "b")],
    };
    let forward = Loop {
        play_mode: PlayMode::Forward,
        begin_loop: 1,
        end_loop: 2,
    };
    let backward = Loop {
        begin_loop: 2,
        end_loop: 1,
        ..forward
    };
    let inst = InstrumentChunk {
        base_note: 60,
        detune: 0,
        low_note: 0,
        high_note: 127,
        low_velocity: 1,
        high_velocity: 127,
        gain: 0,
        sustain_loop: forward,
        release_loop: backward,
    };
    let sustain = inst.resolve_sustain_loop(&markers).unwrap();
    assert!(sustain.begin.position < sustain.end.position);
    assert_eq!(sustain.begin.name, "a");
    assert_eq!(inst.resolve_release_loop(&markers), None);
}

#[test]
fn numbers_come_back_unchanged() {
    let numbers = [
        Extended::Nan,
        Extended::Infinite { negative: true },
        Extended::Infinite { negative: false },
        hertz(44_100),
        Extended::Finite {
            negative: true,
            mantissa: u64::MAX,
            scale: 16_320,
        },
        Extended::Finite {
            negative: false,
            mantissa: 1,
            scale: -16_445,
        },
        Extended::Finite {
            negative: true,
            mantissa: 1 << 63,
            scale: -16_445,
        },
    ];
    for x in numbers {
        assert_eq!(decode_extended(encode_extended(x).unwrap()), x);
    }
    let too_large = Extended::Finite {
        negative: false,
        mantissa: 1,
        scale: 16_321,
    };
    assert_eq!(encode_extended(too_large), None);
    let too_small = Extended::Finite {
        negative: false,
        mantissa: 1,
        scale: -16_446,
    };
    assert_eq!(encode_extended(too_small), None);
}

#[test]
fn sample_rates_end_where_double_precision_does() {
    let rate = |mantissa: u64, scale: i32| {
        let x = Extended::Finite {
            negative: false,
            mantissa,
            scale,
        };
        let finite = mantissa as f64 * power(scale.clamp(-1074, 1023));
        let lost = scale < -1074 && (scale < -1138 || mantissa as u128 <= 1 << (-1075 - scale));
        let accepted = !lost && scale <= 1023 && finite.is_finite() && finite > 0.0;
        assert_eq!(encode_sample_rate(x).is_ok(), accepted, "{mantissa} {scale}");
        if accepted {
            assert_eq!(decode_sample_rate(encode_sample_rate(x).unwrap()), Ok(x));
        }
    };
    rate(1, -1074);
    rate(1, -1075);
    rate(2, -1075);
    rate(1 << 55, -1075);
    rate(1 << 63, -1083);
    rate(1 << 63, -1137);
    rate(1 << 63, -1138);
    rate((1 << 63) + 1, -1138);
    rate(u64::MAX, -1138);
    rate(u64::MAX, -1139);
    rate(u64::MAX, -16_445);
    rate(1, 1023);
    rate(1, 1024);
    rate(2, 1023);
    rate((1 << 53) - 1, 971);
    rate(1 << 53, 971);
    rate((1 << 54) - 1, 970);
    rate((1 << 54) - 2, 970);
    rate(u64::MAX, 960);
    rate(u64::MAX - 1023, 960);
    rate(u64::MAX - 1024, 960);
    rate(u64::MAX, 959);
    rate(0, 0);
    assert_eq!(
        encode_sample_rate(Extended::Nan),
        Err(AiffError::InvalidSampleRate)
    );
}

#[test]
fn common_chunks_come_back_unchanged() {
    let plain = common(None, None);
    let bytes = write_common_chunk(&plain).unwrap();
    assert_eq!(bytes.len(), 18);
    assert_eq!(parse_common(&bytes, *b"AIFF"), Ok(plain));

    let named = common(Some(*b"sowt"), Some("little endian"));
    let bytes = write_common_chunk(&named).unwrap();
    assert_eq!(bytes.len(), 22 + 14);
    assert_eq!(parse_common(&bytes, *b"AIFC"), Ok(named));

    let unnamed = common(Some(*b"NONE"), None);
    let bytes = write_common_chunk(&unnamed).unwrap();
    assert_eq!(bytes.len(), 24);
    assert_eq!(
        parse_common(&bytes, *b"AIFC"),
        Ok(common(Some(*b"NONE"), Some("")))
    );
}

#[test]
fn common_chunks_that_mean_nothing_are_not_written() {
    let mut c = common(None, None);
    c.num_channels = 0;
    assert_eq!(
        write_common_chunk(&c),
        Err(AiffError::InvalidValue {
            what: "numChannels",
            value: 0
        })
    );
    c.num_channels = 0x8000;
    assert_eq!(
        write_common_chunk(&c),
        Err(AiffError::InvalidValue {
            what: "numChannels",
            value: 0x8000
        })
    );
    c.num_channels = 1;
    c.sample_size = 33;
    assert_eq!(write_common_chunk(&c), Err(AiffError::InvalidSampleSize(33)));
    c.sample_size = 8;
    c.sample_rate = hertz(0);
    assert_eq!(write_common_chunk(&c), Err(AiffError::InvalidSampleRate));
}

#[test]
fn sound_data_come_back_unchanged() {
    let sound = SoundData {
        offset: 3,
        block_size: 512,
        samples: &[1, 2, 3, 4],
    };
    let bytes = write_sound_data(&sound);
    assert_eq!(bytes, [0, 0, 0, 3, 0, 0, 2, 0, 0, 0, 0, 1, 2, 3, 4]);
    assert_eq!(parse_sound_data(&bytes, 15), Ok(sound));
}

#[test]
fn framed_chunks_come_back_one_by_one() {
    let mut d = frame_chunk(b"abcd", &[1, 2, 3]).unwrap();
    d.extend(frame_chunk(b"efgh", &[]).unwrap());
    d.extend(frame_chunk(b"ijkl", &[4]).unwrap());
    d.pop();
    let chunks: Vec<Result<Chunk, AiffError>> = ChunkIter::new(&d).collect();
    assert_eq!(
        chunks,
        vec![
            Ok(Chunk {
                id: *b"abcd",
                size: 3,
                data: &[1, 2, 3]
            }),
            Ok(Chunk {
                id: *b"efgh",
                size: 0,
                data: &[]
            }),
            Ok(Chunk {
                id: *b"ijkl",
                size: 1,
                data: &[4]
            }),
        ]
    );
}

#[test]
fn an_assembled_file_is_read_back() {
    let common = common(None, None);
    let text = TextChunk {
        kind: TextKind::Name,
        text: b"tune".to_vec(),
    };
    let sound = SoundData {
        offset: 0,
        block_size: 0,
        samples: &[0; 12],
    };
    let mut inner = b"AIFF".to_vec();
    inner.extend(frame_chunk(b"COMM", &write_common_chunk(&common).unwrap()).unwrap());
    inner.extend(frame_chunk(b"NAME", &write_text_chunk(&text)).unwrap());
    inner.extend(frame_chunk(b"SSND", &write_sound_data(&sound)).unwrap());
    let file = frame_chunk(b"FORM", &inner).unwrap();
    let form = parse(&file).unwrap();
    assert_eq!(form.common, common);
    assert_eq!(form.name, Some(text));
    assert_eq!(form.sound, Some(sound));
}
