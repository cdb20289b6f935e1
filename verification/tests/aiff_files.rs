//! How the chunks of an AIFF file work together.

use oxideav_iff::aiff::demuxer::{codec_id_for, probe, sample_format_for, SampleFormat};
use oxideav_iff::aiff::{
    decode_pcm, frame_chunk, parse, write_common_chunk, AiffDemuxer, AiffError, ApplicationChunk,
    ChunkClass, ChunkIter, CommonChunk, Extended, PcmSamples,
};

fn common(channels: u16, frames: u32, bits: u16, compression: Option<[u8; 4]>) -> CommonChunk {
    CommonChunk {
        num_channels: channels,
        num_sample_frames: frames,
        sample_size: bits,
        sample_rate: Extended::Finite {
            negative: false,
            mantissa: 88_201,
            scale: -1,
        },
        compression_type: compression,
        compression_name: compression.map(|_| String::new()),
    }
}

fn power(exponent: i32) -> f64 {
    if exponent >= -1022 {
        f64::from_bits(((exponent + 1023) as u64) << 52)
    } else {
        f64::from_bits(1 << (exponent + 1074))
    }
}

fn file(form_type: &[u8; 4], chunks: &[(&[u8; 4], Vec<u8>)]) -> Vec<u8> {
    let mut inner = form_type.to_vec();
    for (id, body) in chunks {
        inner.extend(frame_chunk(id, body).unwrap());
    }
    frame_chunk(b"FORM", &inner).unwrap()
}

fn comm(frames: u32) -> (&'static [u8; 4], Vec<u8>) {
    (
        b"COMM",
        write_common_chunk(&common(1, frames, 16, None)).unwrap(),
    )
}

fn inst() -> Vec<u8> {
    vec![
        60, 0, 0, 127, 1, 127, 0, 0, 0, 0, 0, 0, 0, 0, 0, 0, 0, 0, 0, 0,
    ]
}

#[test]
fn all_chunks_of_a_file_are_kept() {
    let f = file(
        b"AIFF",
        &[
            (b"ANNO", b"one".to_vec()),
            (b"APPL", b"pdos\x02hi!".to_vec()),
            (b"SAXL", vec![0, 1, 0, 7, 0, 1, 0xAA, 0]),
            (b"MARK", vec![0, 1, 0, 7, 0, 0, 0, 3, 1, b'm']),
            (b"ZZZZ", vec![1, 2, 3]),
            (b"INST", inst()),
            (b"COMT", vec![0, 1, 0, 0, 0, 9, 0, 7, 0, 2, b'o', b'k']),
            (b"AESD", vec![0x14; 24]),
            (b"MIDI", vec![0xF0, 1]),
            comm(0),
            (b"NAME", b"n".to_vec()),
            (b"AUTH", b"a".to_vec()),
            (b"(c) ", b"c".to_vec()),
            (b"ANNO", b"two".to_vec()),
            (b"MIDI", vec![0x90]),
            (b"FVER", vec![0xA2, 0x80, 0x51, 0x40]),
        ],
    );
    let form = parse(&f).unwrap();
    assert_eq!(form.form_type, *b"AIFF");
    assert_eq!(form.sound, None);
    assert_eq!(form.fver_timestamp, Some(0xA280_5140));
    assert_eq!(
        form.applications,
        vec![ApplicationChunk {
            signature: *b"pdos",
            data: b"\x02hi!".to_vec()
        }]
    );
    let markers = form.markers.as_ref().unwrap();
    let saxel = form.saxels[0].by_marker_id(7).unwrap();
    assert_eq!(saxel.resolve_marker(markers).unwrap().name, "m");
    let comment = &form.comments.as_ref().unwrap().comments[0];
    assert_eq!(comment.text, "ok");
    assert_eq!(comment.resolve_marker(markers).unwrap().position, 3);
    assert_eq!(form.instrument.unwrap().base_note, 60);
    assert_eq!(form.aesd.unwrap().emphasis().bits, 5);
    assert_eq!(form.midi.len(), 2);
    assert_eq!(form.midi[1].data, vec![0x90]);
    assert_eq!(form.name.as_ref().unwrap().as_str(), Some("n"));
    assert_eq!(form.author.as_ref().unwrap().as_str(), Some("a"));
    assert_eq!(form.copyright.as_ref().unwrap().as_str(), Some("c"));
    let notes: Vec<&[u8]> = form.annotations.iter().map(|t| t.text.as_slice()).collect();
    assert_eq!(notes, vec![b"one".as_slice(), b"two".as_slice()]);

    assert_eq!(
        form.precedence_order(),
        vec![
            ChunkClass::FormatVersion,
            ChunkClass::Common,
            ChunkClass::Instrument,
            ChunkClass::Saxel,
            ChunkClass::Comments,
            ChunkClass::Marker,
            ChunkClass::Name,
            ChunkClass::Author,
            ChunkClass::Copyright,
            ChunkClass::Annotation,
            ChunkClass::Annotation,
            ChunkClass::AudioRecording,
            ChunkClass::MidiData,
            ChunkClass::MidiData,
            ChunkClass::ApplicationSpecific,
        ]
    );
    assert_eq!(
        form.highest_precedence_class(),
        Some(ChunkClass::FormatVersion)
    );
}

#[test]
fn without_a_version_the_common_chunk_comes_first() {
    let f = file(b"AIFF", &[comm(0), (b"SSND", vec![0; 8])]);
    let form = parse(&f).unwrap();
    assert_eq!(
        form.precedence_order(),
        vec![ChunkClass::Common, ChunkClass::SoundData]
    );
    assert_eq!(form.highest_precedence_class(), Some(ChunkClass::Common));
}

#[test]
fn a_second_chunk_of_a_single_class_is_rejected() {
    let bodies: [(&'static [u8; 4], &'static str, Vec<u8>); 7] = [
        (b"MARK", "MARK", vec![0, 0]),
        (b"INST", "INST", inst()),
        (b"COMT", "COMT", vec![0, 0]),
        (b"AESD", "AESD", vec![0; 24]),
        (b"NAME", "NAME", vec![]),
        (b"AUTH", "AUTH", vec![]),
        (b"(c) ", "(c) ", vec![]),
    ];
    for (id, name, body) in bodies {
        let once = file(b"AIFF", &[comm(0), (id, body.clone())]);
        assert!(parse(&once).is_ok(), "{name}");
        let twice = file(b"AIFF", &[(id, body.clone()), comm(0), (id, body)]);
        assert_eq!(parse(&twice), Err(AiffError::DuplicateChunk(name)));
    }
}

#[test]
fn the_order_of_different_chunks_does_not_matter() {
    let name = (b"NAME", b"n".to_vec());
    let note = (b"ANNO", b"x".to_vec());
    let a = file(b"AIFF", &[comm(0), name.clone(), note.clone()]);
    let b = file(b"AIFF", &[note, comm(0), name]);
    assert_eq!(parse(&a), parse(&b));
}

#[test]
fn chunks_may_be_reordered_among_unknown_ones() {
    let name = (b"NAME", b"n".to_vec());
    let first = (b"ANNO", b"first".to_vec());
    let second = (b"ANNO", b"second".to_vec());
    let midi = (b"MIDI", vec![0xF0, 0xF7]);
    let odd = (b"ZZZZ", vec![1, 2, 3]);
    let a = file(
        b"AIFF",
        &[comm(0), name.clone(), first.clone(), second.clone(), midi.clone()],
    );
    let b = file(
        b"AIFF",
        &[odd.clone(), midi, first, odd.clone(), name, second, comm(0), odd],
    );
    assert!(parse(&a).is_ok());
    assert_eq!(parse(&a), parse(&b));
}

#[test]
fn a_later_common_chunk_takes_the_place_of_an_earlier_one() {
    let f = file(b"AIFF", &[comm(5), comm(0)]);
    assert_eq!(parse(&f).unwrap().common.num_sample_frames, 0);
}

#[test]
fn broken_files_are_rejected() {
    assert_eq!(parse(b"FORM"), Err(AiffError::Truncated("FORM header")));
    assert_eq!(
        parse(b"RIFF\x00\x00\x00\x04AIFF"),
        Err(AiffError::NotForm { found: *b"RIFF" })
    );
    assert_eq!(
        parse(b"FORM\x00\x00\x00\x048SVX"),
        Err(AiffError::UnknownFormType { found: *b"8SVX" })
    );
    assert_eq!(
        parse(&file(b"AIFF", &[])),
        Err(AiffError::MissingChunk("COMM"))
    );
    assert_eq!(
        parse(&file(b"AIFF", &[comm(1)])),
        Err(AiffError::MissingChunk("SSND"))
    );
    assert_eq!(
        parse(&file(b"AIFF", &[(b"SSND", vec![0; 7])])),
        Err(AiffError::Truncated("SSND chunk header"))
    );
    assert_eq!(
        parse(&file(b"AIFF", &[(b"SSND", vec![0, 0, 0, 3, 0, 0, 0, 0, 9, 9])])),
        Err(AiffError::OversizedChunk {
            id: *b"SSND",
            declared: 10,
            available: 2
        })
    );
    assert_eq!(
        parse(&file(b"AIFF", &[(b"FVER", vec![0; 3])])),
        Err(AiffError::Truncated("FVER chunk"))
    );
    let mut cut = file(b"AIFF", &[comm(0)]);
    cut.truncate(cut.len() - 1);
    assert_eq!(
        parse(&cut),
        Err(AiffError::OversizedChunk {
            id: *b"COMM",
            declared: 18,
            available: 17
        })
    );
    let tiny = b"FORM\x00\x00\x00\x00AIFFCOMM";
    assert_eq!(parse(tiny), Err(AiffError::MissingChunk("COMM")));
}

#[test]
fn an_oversized_chunk_ends_the_walk() {
    let d = b"ABCD\x00\x00\x00\x05xyz";
    let mut it = ChunkIter::new(d);
    assert_eq!(it.remaining(), d);
    assert_eq!(
        it.next(),
        Some(Err(AiffError::OversizedChunk {
            id: *b"ABCD",
            declared: 5,
            available: 3
        }))
    );
    assert!(it.remaining().is_empty());
    assert_eq!(it.next(), None);
}

#[test]
fn descriptions_say_what_went_wrong() {
    let said: [(AiffError, &str); 13] = [
        (
            AiffError::Truncated("FORM header"),
            "truncated input while parsing FORM header",
        ),
        (
            AiffError::NotForm {
                found: [b'R', 0x07, b'"', 0xFF],
            },
            "outermost chunk is \"R?\\\"?\", expected `FORM`",
        ),
        (
            AiffError::UnknownFormType { found: *b"8SVX" },
            "FORM type \"8SVX\" is neither `AIFF` nor `AIFC`",
        ),
        (
            AiffError::OversizedChunk {
                id: *b"COMM",
                declared: 4_294_967_295,
                available: 10,
            },
            "chunk \"COMM\" declared 4294967295 bytes but only 10 are available",
        ),
        (
            AiffError::MissingChunk("SSND"),
            "FORM is missing required chunk `SSND`",
        ),
        (
            AiffError::DuplicateChunk("(c) "),
            "FORM holds more than one `(c) ` chunk",
        ),
        (
            AiffError::DuplicateMarkerId(7),
            "MarkerId 7 is used by more than one marker",
        ),
        (
            AiffError::CommTooShort {
                form_type: *b"AIFC",
                declared: 20,
            },
            "COMM ckSize=20 is below the minimum for form type \"AIFC\"",
        ),
        (
            AiffError::InvalidValue {
                what: "playMode",
                value: i64::MIN,
            },
            "invalid value -9223372036854775808 for field `playMode`",
        ),
        (
            AiffError::InvalidSampleRate,
            "sampleRate decoded to NaN, infinity, or <= 0",
        ),
        (
            AiffError::InvalidSampleSize(33),
            "sampleSize=33 is outside 1..=32",
        ),
        (
            AiffError::UnsupportedPcmCompression(*b"ima4"),
            "compressionType \"ima4\" is not a PCM flavour this crate handles",
        ),
        (
            AiffError::SsndUnaligned {
                payload: 7,
                frame_size: 4,
            },
            "SSND payload of 7 bytes is not a multiple of frame_size=4",
        ),
    ];
    for (e, text) in said {
        assert_eq!(e.message(), text);
    }
}

#[test]
fn rates_are_rounded_down_for_players() {
    let f = file(
        b"AIFF",
        &[
            comm(1),
            (b"SSND", vec![0, 0, 0, 0, 0, 0, 0, 0, 1, 2]),
        ],
    );
    assert_eq!(probe(&f), 100);
    let mut d = AiffDemuxer::from_bytes(f).unwrap();
    assert_eq!(d.stream().sample_rate, 44_100);
    assert_eq!(d.stream().ticks_per_second, 44_100);
    assert_eq!(d.next_packet().unwrap().data, vec![1, 2]);
    assert_eq!(d.next_packet(), None);
}

#[test]
fn rates_are_kept_within_their_fields() {
    let rate_of = |mantissa: u64, scale: i32| {
        let mut c = common(1, 0, 16, None);
        c.sample_rate = Extended::Finite {
            negative: false,
            mantissa,
            scale,
        };
        let value = mantissa as f64 * power(scale);
        let f = file(b"AIFF", &[(b"COMM", write_common_chunk(&c).unwrap())]);
        let d = AiffDemuxer::from_bytes(f).unwrap();
        assert_eq!(d.stream().sample_rate, value as u32, "{mantissa} {scale}");
        assert_eq!(
            d.stream().ticks_per_second,
            (value as i64).max(1),
            "{mantissa} {scale}"
        );
    };
    rate_of(1, -1074);
    rate_of(1, -1);
    rate_of(3, -1);
    rate_of(u64::MAX, 0);
    rate_of(u64::MAX, -1);
    rate_of(u64::MAX, -11);
    rate_of(u64::MAX, -64);
    rate_of(u64::MAX, -65);
    rate_of(u64::MAX - 1025, -32);
    rate_of((1 << 53) + 1, -1);
    rate_of((1 << 53) + 3, -1);
    rate_of((1 << 54) + 2, -2);
    rate_of(1, 31);
    rate_of(1, 32);
    rate_of(1, 62);
    rate_of(1, 63);
    rate_of(1, 64);
    rate_of(5, 1000);
    rate_of(44_100 << 40, -40);
}

#[test]
fn decoders_and_formats_follow_the_compression() {
    let table: [(&[u8; 4], &str, Option<SampleFormat>); 26] = [
        (b"NONE", "pcm_s16be", Some(SampleFormat::S16)),
        (b"twos", "pcm_s16be", Some(SampleFormat::S16)),
        (b"sowt", "pcm_s16le", Some(SampleFormat::S16)),
        (b"raw ", "pcm_u8", Some(SampleFormat::U8)),
        (b"fl32", "pcm_f32be", Some(SampleFormat::F32)),
        (b"FL32", "pcm_f32be", Some(SampleFormat::F32)),
        (b"fl64", "pcm_f64be", Some(SampleFormat::F64)),
        (b"FL64", "pcm_f64be", Some(SampleFormat::F64)),
        (b"ima4", "adpcm_ima_qt", None),
        (b"alaw", "alaw", None),
        (b"ALAW", "alaw", None),
        (b"ulaw", "ulaw", None),
        (b"ULAW", "ulaw", None),
        (b"MAC3", "mace3", None),
        (b"MAC6", "mace6", None),
        (b"GSM ", "gsm", None),
        (b"G722", "g722", None),
        (b"G726", "g726", None),
        (b"ADP4", "g726", None),
        (b"G728", "g728", None),
        (b"QDMC", "qdmc", None),
        (b"QDM2", "qdm2", None),
        (b"Qclp", "qclp", None),
        (b"none", "unknown", None),
        (b"RAW ", "unknown", None),
        (b"\x00\x00\x00\x00", "unknown", None),
    ];
    for (t, codec, format) in table {
        assert_eq!(codec_id_for(Some(*t)), codec);
        assert_eq!(sample_format_for(16, Some(*t)), format);
    }
    assert_eq!(codec_id_for(None), "pcm_s16be");
    assert_eq!(sample_format_for(0, None), None);
    assert_eq!(sample_format_for(1, None), Some(SampleFormat::S16));
    assert_eq!(sample_format_for(17, None), Some(SampleFormat::S24));
    assert_eq!(sample_format_for(24, None), Some(SampleFormat::S24));
    assert_eq!(sample_format_for(25, None), Some(SampleFormat::S32));
    assert_eq!(sample_format_for(32, None), Some(SampleFormat::S32));
    assert_eq!(sample_format_for(33, None), None);
    assert_eq!(probe(b"FORM\x00\x00\x00\x04AIF"), 0);
}

#[test]
fn reversed_samples_decode_alike() {
    let big = [1, 2, 3, 4, 5, 6, 0xFF, 0x80, 0x7F, 9, 8, 7];
    let little = [3, 2, 1, 6, 5, 4, 0x7F, 0x80, 0xFF, 7, 8, 9];
    let a = decode_pcm(&common(2, 2, 24, Some(*b"twos")), &big).unwrap();
    let b = decode_pcm(&common(2, 2, 24, Some(*b"sowt")), &little).unwrap();
    assert_eq!(a, b);
    assert_eq!(
        a,
        PcmSamples::I32(vec![
            vec![0x0102_0300, 0xFF80_7F00_u32 as i32],
            vec![0x0405_0600, 0x0908_0700],
        ])
    );
    assert_eq!(a.channels(), 2);
    assert_eq!(a.frames(), 2);
}

#[test]
fn sound_data_that_do_not_fit_are_rejected() {
    assert_eq!(
        decode_pcm(&common(0, 1, 16, None), &[0, 0]),
        Err(AiffError::InvalidValue {
            what: "frame_size",
            value: 0
        })
    );
    assert_eq!(
        decode_pcm(&common(2, 2, 16, None), &[0; 7]),
        Err(AiffError::SsndUnaligned {
            payload: 7,
            frame_size: 4
        })
    );
    assert_eq!(
        decode_pcm(&common(1, 1, 24, Some(*b"raw ")), &[0; 3]),
        Err(AiffError::InvalidValue {
            what: "sampleSize for `raw ` compressionType",
            value: 24
        })
    );
    assert_eq!(
        decode_pcm(&common(1, 1, 16, Some(*b"fl32")), &[0; 4]),
        Err(AiffError::InvalidValue {
            what: "sampleSize for `fl32` compressionType",
            value: 16
        })
    );
    assert_eq!(
        decode_pcm(&common(1, 1, 16, Some(*b"FL64")), &[0; 8]),
        Err(AiffError::InvalidValue {
            what: "sampleSize for `fl64` compressionType",
            value: 16
        })
    );
    assert_eq!(
        decode_pcm(&common(1, 1, 32, Some(*b"fl64")), &1.5_f64.to_be_bytes()),
        Ok(PcmSamples::F64(vec![vec![1.5_f64.to_bits()]]))
    );
    assert_eq!(
        decode_pcm(&common(1, 1, 32, None), &[0x80, 0, 0, 1, 7, 7]),
        Ok(PcmSamples::I32(vec![vec![i32::MIN + 1]]))
    );
}
