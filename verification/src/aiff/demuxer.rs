//! What a player has to know to open a file and to pick a decoder.

use vstd::prelude::*;
use crate::aiff::chunk::{chunk_list, ChunkData};
use crate::aiff::common::{
    common_read, COMPRESSION_FL32, COMPRESSION_FL32_UC, COMPRESSION_FL64, COMPRESSION_FL64_UC,
    COMPRESSION_NONE, COMPRESSION_RAW, COMPRESSION_SOWT, COMPRESSION_TWOS, Common, CommonChunk,
    FORM_AIFC, FORM_AIFF,
};
use crate::aiff::error::AiffError;
use crate::aiff::extended::{integer_part, is_sample_rate, whole_rate};
use crate::aiff::form::{
    added, form_read, gathered, inner, no_contents, parse, Contents, Form, FormData,
};
use crate::aiff::pcm::{compression_of, has_sized_integers, is_pcm};
use crate::bytes::{copy_range, id_at, read_id, same_id};
use crate::chunk::GROUP_FORM;

verus! {

/// Name of the format.
pub const FORMAT_NAME: &'static str = "aiff";

/// `ima4`.
pub const COMPRESSION_IMA4: [u8; 4] = [0x69, 0x6D, 0x61, 0x34];

/// `alaw`.
pub const COMPRESSION_ALAW: [u8; 4] = [0x61, 0x6C, 0x61, 0x77];

/// `ALAW`.
pub const COMPRESSION_ALAW_UC: [u8; 4] = [0x41, 0x4C, 0x41, 0x57];

/// `ulaw`.
pub const COMPRESSION_ULAW: [u8; 4] = [0x75, 0x6C, 0x61, 0x77];

/// `ULAW`.
pub const COMPRESSION_ULAW_UC: [u8; 4] = [0x55, 0x4C, 0x41, 0x57];

/// `MAC3`.
pub const COMPRESSION_MAC3: [u8; 4] = [0x4D, 0x41, 0x43, 0x33];

/// `MAC6`.
pub const COMPRESSION_MAC6: [u8; 4] = [0x4D, 0x41, 0x43, 0x36];

/// `GSM `.
pub const COMPRESSION_GSM: [u8; 4] = [0x47, 0x53, 0x4D, 0x20];

/// `G722`.
pub const COMPRESSION_G722: [u8; 4] = [0x47, 0x37, 0x32, 0x32];

/// `G726`.
pub const COMPRESSION_G726: [u8; 4] = [0x47, 0x37, 0x32, 0x36];

/// `ADP4`.
pub const COMPRESSION_ADP4: [u8; 4] = [0x41, 0x44, 0x50, 0x34];

/// `G728`.
pub const COMPRESSION_G728: [u8; 4] = [0x47, 0x37, 0x32, 0x38];

/// `QDMC`.
pub const COMPRESSION_QDMC: [u8; 4] = [0x51, 0x44, 0x4D, 0x43];

/// `QDM2`.
pub const COMPRESSION_QDM2: [u8; 4] = [0x51, 0x44, 0x4D, 0x32];

/// `Qclp`.
pub const COMPRESSION_QCLP: [u8; 4] = [0x51, 0x63, 0x6C, 0x70];

/// Whether bytes start like a file.
pub open spec fn starts_like_file(d: Seq<u8>) -> bool {
    d.len() >= 12 && id_at(d, 0) == GROUP_FORM && (id_at(d, 8) == FORM_AIFF || id_at(d, 8)
        == FORM_AIFC)
}

/// How sure it is that bytes are the start of a file: 100 where they start like one, else 0.
pub fn probe(buf: &[u8]) -> (score: u8)
    ensures
        score == if starts_like_file(buf@) {
            100u8
        } else {
            0u8
        },
{
    if buf.len() < 12 || !same_id(read_id(buf, 0), GROUP_FORM) {
        return 0;
    }
    let form_type: [u8; 4] = read_id(buf, 8);
    if same_id(form_type, FORM_AIFF) || same_id(form_type, FORM_AIFC) {
        100
    } else {
        0
    }
}

/// Name of the decoder for a compression; an `AIFF` has none.
pub open spec fn codec_name(compression: Option<[u8; 4]>) -> &'static str {
    match compression {
        None => "pcm_s16be",
        Some(t) => if t == COMPRESSION_NONE || t == COMPRESSION_TWOS {
            "pcm_s16be"
        } else if t == COMPRESSION_SOWT {
            "pcm_s16le"
        } else if t == COMPRESSION_RAW {
            "pcm_u8"
        } else if t == COMPRESSION_FL32 || t == COMPRESSION_FL32_UC {
            "pcm_f32be"
        } else if t == COMPRESSION_FL64 || t == COMPRESSION_FL64_UC {
            "pcm_f64be"
        } else if t == COMPRESSION_IMA4 {
            "adpcm_ima_qt"
        } else if t == COMPRESSION_ALAW || t == COMPRESSION_ALAW_UC {
            "alaw"
        } else if t == COMPRESSION_ULAW || t == COMPRESSION_ULAW_UC {
            "ulaw"
        } else if t == COMPRESSION_MAC3 {
            "mace3"
        } else if t == COMPRESSION_MAC6 {
            "mace6"
        } else if t == COMPRESSION_GSM {
            "gsm"
        } else if t == COMPRESSION_G722 {
            "g722"
        } else if t == COMPRESSION_G726 || t == COMPRESSION_ADP4 {
            "g726"
        } else if t == COMPRESSION_G728 {
            "g728"
        } else if t == COMPRESSION_QDMC {
            "qdmc"
        } else if t == COMPRESSION_QDM2 {
            "qdm2"
        } else if t == COMPRESSION_QCLP {
            "qclp"
        } else {
            "unknown"
        },
    }
}

/// Name of the decoder for a compression.
pub fn codec_id_for(compression: Option<[u8; 4]>) -> (name: &'static str)
    ensures
        name@ == codec_name(compression)@,
{
    match compression {
        None => "pcm_s16be",
        Some(t) => if same_id(t, COMPRESSION_NONE) || same_id(t, COMPRESSION_TWOS) {
            "pcm_s16be"
        } else if same_id(t, COMPRESSION_SOWT) {
            "pcm_s16le"
        } else if same_id(t, COMPRESSION_RAW) {
            "pcm_u8"
        } else if same_id(t, COMPRESSION_FL32) || same_id(t, COMPRESSION_FL32_UC) {
            "pcm_f32be"
        } else if same_id(t, COMPRESSION_FL64) || same_id(t, COMPRESSION_FL64_UC) {
            "pcm_f64be"
        } else if same_id(t, COMPRESSION_IMA4) {
            "adpcm_ima_qt"
        } else if same_id(t, COMPRESSION_ALAW) || same_id(t, COMPRESSION_ALAW_UC) {
            "alaw"
        } else if same_id(t, COMPRESSION_ULAW) || same_id(t, COMPRESSION_ULAW_UC) {
            "ulaw"
        } else if same_id(t, COMPRESSION_MAC3) {
            "mace3"
        } else if same_id(t, COMPRESSION_MAC6) {
            "mace6"
        } else if same_id(t, COMPRESSION_GSM) {
            "gsm"
        } else if same_id(t, COMPRESSION_G722) {
            "g722"
        } else if same_id(t, COMPRESSION_G726) || same_id(t, COMPRESSION_ADP4) {
            "g726"
        } else if same_id(t, COMPRESSION_G728) {
            "g728"
        } else if same_id(t, COMPRESSION_QDMC) {
            "qdmc"
        } else if same_id(t, COMPRESSION_QDM2) {
            "qdm2"
        } else if same_id(t, COMPRESSION_QCLP) {
            "qclp"
        } else {
            "unknown"
        },
    }
}

/// Format of samples.
#[derive(Clone, Copy, Debug, PartialEq, Eq, Structural)]
pub enum SampleFormat {
    /// Unsigned, eight bits.
    U8,
    /// Signed, 16 bits.
    S16,
    /// Signed, 24 bits.
    S24,
    /// Signed, 32 bits.
    S32,
    /// Single precision.
    F32,
    /// Double precision.
    F64,
}

/// Format of the samples of a size in a compression, where the file decides it.
pub open spec fn sample_format(size: u16, compression: Option<[u8; 4]>) -> Option<SampleFormat> {
    let t = match compression {
        Some(t) => t,
        None => COMPRESSION_NONE,
    };
    if has_sized_integers(t) {
        if 1 <= size <= 16 {
            Some(SampleFormat::S16)
        } else if 17 <= size <= 24 {
            Some(SampleFormat::S24)
        } else if 25 <= size <= 32 {
            Some(SampleFormat::S32)
        } else {
            None
        }
    } else if t == COMPRESSION_RAW {
        Some(SampleFormat::U8)
    } else if t == COMPRESSION_FL32 || t == COMPRESSION_FL32_UC {
        Some(SampleFormat::F32)
    } else if t == COMPRESSION_FL64 || t == COMPRESSION_FL64_UC {
        Some(SampleFormat::F64)
    } else {
        None
    }
}

/// Format of the samples of a size in a compression, where the file decides it.
pub fn sample_format_for(sample_size: u16, compression: Option<[u8; 4]>) -> (r: Option<SampleFormat>)
    ensures
        r == sample_format(sample_size, compression),
{
    let t: [u8; 4] = match compression {
        Some(t) => t,
        None => COMPRESSION_NONE,
    };
    if same_id(t, COMPRESSION_NONE) || same_id(t, COMPRESSION_TWOS) || same_id(t, COMPRESSION_SOWT) {
        if sample_size < 1 || sample_size > 32 {
            None
        } else if sample_size <= 16 {
            Some(SampleFormat::S16)
        } else if sample_size <= 24 {
            Some(SampleFormat::S24)
        } else {
            Some(SampleFormat::S32)
        }
    } else if same_id(t, COMPRESSION_RAW) {
        Some(SampleFormat::U8)
    } else if same_id(t, COMPRESSION_FL32) || same_id(t, COMPRESSION_FL32_UC) {
        Some(SampleFormat::F32)
    } else if same_id(t, COMPRESSION_FL64) || same_id(t, COMPRESSION_FL64_UC) {
        Some(SampleFormat::F64)
    } else {
        None
    }
}

/// What a player has to know of the sound.
#[derive(Clone, Copy, Debug, PartialEq, Eq)]
pub struct AudioStream {
    /// Name of the decoder.
    pub codec_id: &'static str,
    /// Whole sample frames per second.
    pub sample_rate: u32,
    /// Number of channels.
    pub channels: u16,
    /// Format of the samples, where the file decides it.
    pub sample_format: Option<SampleFormat>,
    /// The compression that the file names.
    pub tag: Option<[u8; 4]>,
    /// Ticks per second.
    pub ticks_per_second: i64,
    /// Number of sample frames, one per tick.
    pub duration: i64,
}

/// A part of the sound.
#[derive(Clone, Debug, PartialEq, Eq)]
pub struct AudioPacket {
    /// Tick at which it is played.
    pub pts: i64,
    /// Tick at which it is decoded.
    pub dts: i64,
    /// Number of ticks that it takes.
    pub duration: i64,
    /// Whether it can be decoded without others.
    pub keyframe: bool,
    /// The sample frames.
    pub data: Vec<u8>,
}

/// An integer that is kept within two bounds.
pub open spec fn clamped(n: int, low: int, high: int) -> int {
    if n < low {
        low
    } else if n > high {
        high
    } else {
        n
    }
}

/// Whole sample frames per second of a file.
pub open spec fn frames_per_second(c: Common) -> int {
    integer_part(c.sample_rate->mantissa, c.sample_rate->scale as int)
}

/// Whether a description is that of the sound of a file with the given common chunk.
pub open spec fn describes(s: AudioStream, c: Common) -> bool {
    &&& s.codec_id@ == codec_name(c.compression_type)@
    &&& s.sample_rate == clamped(frames_per_second(c), 0, u32::MAX as int)
    &&& s.channels == c.num_channels
    &&& s.sample_format == sample_format(c.sample_size, c.compression_type)
    &&& s.tag == c.compression_type
    &&& s.ticks_per_second == clamped(frames_per_second(c), 1, i64::MAX as int)
    &&& s.duration == c.num_sample_frames
}

/// Plays a file. All sound is one packet.
pub struct AiffDemuxer {
    stream: AudioStream,
    payload: Option<Vec<u8>>,
}

impl AiffDemuxer {
    /// What a player has to know of the sound.
    pub closed spec fn info(&self) -> AudioStream {
        self.stream
    }

    /// The sample frames that were not handed out yet.
    pub closed spec fn pending(&self) -> Option<Seq<u8>> {
        match self.payload {
            Some(v) => Some(v@),
            None => None,
        }
    }

    /// Opens a file.
    pub fn from_bytes(bytes: Vec<u8>) -> (r: Result<Self, AiffError>)
        ensures
            match r {
                Ok(d) => {
                    &&& form_read(bytes@) matches Ok(f)
                    &&& f.contents.common matches Some(c)
                    &&& describes(d.info(), c)
                    &&& d.pending() == match f.contents.sound {
                        Some(s) => Some(s.samples),
                        None => None,
                    }
                },
                Err(e) => form_read(bytes@) == Err::<FormData, AiffError>(e),
            },
    {
        let form: Form = match parse(bytes.as_slice()) {
            Ok(form) => form,
            Err(e) => {
                return Err(e);
            },
        };
        proof {
            law_sample_rate_positive(bytes@);
        }
        let common: &CommonChunk = &form.common;
        let ticks: u64 = whole_rate(common.sample_rate, i64::MAX as u64);
        let stream: AudioStream = AudioStream {
            codec_id: codec_id_for(common.compression_type),
            sample_rate: whole_rate(common.sample_rate, u32::MAX as u64) as u32,
            channels: common.num_channels,
            sample_format: sample_format_for(common.sample_size, common.compression_type),
            tag: common.compression_type,
            ticks_per_second: if ticks < 1 {
                1
            } else {
                ticks as i64
            },
            duration: common.num_sample_frames as i64,
        };
        let payload: Option<Vec<u8>> = match &form.sound {
            Some(s) => Some(copy_range(s.samples, 0, s.samples.len())),
            None => None,
        };
        let d: AiffDemuxer = AiffDemuxer { stream, payload };
        assert(match form@.contents.sound {
            Some(s) => s.samples.subrange(0, s.samples.len() as int) =~= s.samples,
            None => true,
        });
        Ok(d)
    }

    /// What a player has to know of the sound.
    pub fn stream(&self) -> (s: &AudioStream)
        ensures
            *s == self.info(),
    {
        &self.stream
    }

    /// Hands out the sound, once. There is nothing more where it was handed out, nor where the
    /// file has none.
    pub fn next_packet(&mut self) -> (r: Option<AudioPacket>)
        ensures
            final(self).info() == old(self).info(),
            final(self).pending() is None,
            match old(self).pending() {
                Some(d) => {
                    &&& r matches Some(p)
                    &&& p.data@ == d
                    &&& p.pts == 0
                    &&& p.dts == 0
                    &&& p.duration == old(self).info().duration
                    &&& p.keyframe
                },
                None => r is None,
            },
    {
        match self.payload.take() {
            Some(data) => Some(
                AudioPacket {
                    pts: 0,
                    dts: 0,
                    duration: self.stream.duration,
                    keyframe: true,
                    data,
                },
            ),
            None => None,
        }
    }
}

/// Opens a file.
pub fn make_demuxer(bytes: Vec<u8>) -> (r: Result<AiffDemuxer, AiffError>)
    ensures
        match r {
            Ok(d) => {
                &&& form_read(bytes@) matches Ok(f)
                &&& f.contents.common matches Some(c)
                &&& describes(d.info(), c)
                &&& d.pending() == match f.contents.sound {
                    Some(s) => Some(s.samples),
                    None => None,
                }
            },
            Err(e) => form_read(bytes@) == Err::<FormData, AiffError>(e),
        },
{
    AiffDemuxer::from_bytes(bytes)
}

proof fn lemma_gathered_rate(
    form_type: [u8; 4],
    p: Contents,
    list: Seq<Result<ChunkData, AiffError>>,
)
    requires
        p.common matches Some(c) ==> is_sample_rate(c.sample_rate),
    ensures
        gathered(form_type, p, list) matches Ok(q) ==> (q.common matches Some(c)
            ==> is_sample_rate(c.sample_rate)),
    decreases list.len(),
{
    if list.len() > 0 {
        match list[0] {
            Ok(c) => match added(form_type, p, c) {
                Ok(q) => {
                    lemma_gathered_rate(form_type, q, list.drop_first());
                },
                Err(_) => {},
            },
            Err(_) => {},
        }
    }
}

/// A file that is read has a sample rate, which is positive and finite.
pub proof fn law_sample_rate_positive(d: Seq<u8>)
    ensures
        form_read(d) matches Ok(f) ==> f.contents.common is Some && is_sample_rate(
            (f.contents.common->0).sample_rate,
        ),
{
    if d.len() >= 12 {
        lemma_gathered_rate(id_at(d, 8), no_contents(), chunk_list(inner(d)));
    }
}

/// What can be read starts like a file.
pub proof fn law_probe_accepts_readable(d: Seq<u8>)
    ensures
        form_read(d) is Ok ==> starts_like_file(d),
{
}

/// Where the file decides the format of the samples, they can be decoded, and the common chunk
/// of a file that was read decides it for every compression whose samples can be decoded.
pub proof fn law_sample_format(d: Seq<u8>, form_type: [u8; 4], size: u16, t: Option<[u8; 4]>)
    ensures
        sample_format(size, t) is Some ==> is_pcm(
            match t {
                Some(t) => t,
                None => COMPRESSION_NONE,
            },
        ),
        common_read(d, form_type) matches Ok(c) ==> (is_pcm(compression_of(c)) <==> sample_format(
            c.sample_size,
            c.compression_type,
        ) is Some),
{
}

} // verus!
