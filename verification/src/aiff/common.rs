//! The common chunk: channels, sample frames, sample size, sample rate and compression.

use vstd::prelude::*;
use crate::aiff::error::AiffError;
use crate::aiff::extended::{
    decode_sample_rate, encode_sample_rate, extended, extended_bytes, is_sample_rate,
    law_extended_round_trip, Extended,
};
use crate::aiff::pstring::{pstring_bytes, push_pstring, stored_name};
use crate::bytes::{
    be16, be16_bytes, be32, be32_bytes, id_at, lemma_lies_be16, lemma_lies_be32, lemma_lies_split,
    lies_at, push_all, push_be16, push_be32, read_be16, read_be32, read_id, same_id, signed16,
    to_signed16,
};
use crate::text::{decode_lossy, lossy_text};
use vstd::slice::slice_subrange;
use vstd::string::*;
use vstd::utf8::{encode_utf8, encode_utf8_decode_utf8, encode_utf8_valid_utf8};

verus! {

/// Type of a FORM without compression.
pub const FORM_AIFF: [u8; 4] = [0x41, 0x49, 0x46, 0x46];

/// Type of a FORM that names its compression.
pub const FORM_AIFC: [u8; 4] = [0x41, 0x49, 0x46, 0x43];

/// `NONE`: samples as in an `AIFF`.
pub const COMPRESSION_NONE: [u8; 4] = [0x4E, 0x4F, 0x4E, 0x45];

/// `twos`: the same as `NONE`.
pub const COMPRESSION_TWOS: [u8; 4] = [0x74, 0x77, 0x6F, 0x73];

/// `sowt`: samples with the least significant byte first.
pub const COMPRESSION_SOWT: [u8; 4] = [0x73, 0x6F, 0x77, 0x74];

/// `raw `: unsigned samples of eight bits.
pub const COMPRESSION_RAW: [u8; 4] = [0x72, 0x61, 0x77, 0x20];

/// `fl32`: single-precision samples.
pub const COMPRESSION_FL32: [u8; 4] = [0x66, 0x6C, 0x33, 0x32];

/// `FL32`: the same as `fl32`.
pub const COMPRESSION_FL32_UC: [u8; 4] = [0x46, 0x4C, 0x33, 0x32];

/// `fl64`: double-precision samples.
pub const COMPRESSION_FL64: [u8; 4] = [0x66, 0x6C, 0x36, 0x34];

/// `FL64`: the same as `fl64`.
pub const COMPRESSION_FL64_UC: [u8; 4] = [0x46, 0x4C, 0x36, 0x34];

/// The common chunk.
#[derive(Clone, Debug, PartialEq, Eq)]
pub struct CommonChunk {
    /// Number of channels.
    pub num_channels: u16,
    /// Number of sample frames.
    pub num_sample_frames: u32,
    /// Bits per sample.
    pub sample_size: u16,
    /// Sample frames per second.
    pub sample_rate: Extended,
    /// Compression, in an `AIFC`.
    pub compression_type: Option<[u8; 4]>,
    /// Name of the compression, in an `AIFC`.
    pub compression_name: Option<String>,
}

/// What a common chunk says.
#[verifier::ext_equal]
pub struct Common {
    /// Number of channels.
    pub num_channels: u16,
    /// Number of sample frames.
    pub num_sample_frames: u32,
    /// Bits per sample.
    pub sample_size: u16,
    /// Sample frames per second.
    pub sample_rate: Extended,
    /// Compression and its name, in an `AIFC`.
    pub compression_type: Option<[u8; 4]>,
    /// Name of the compression, in an `AIFC`.
    pub compression_name: Option<Seq<char>>,
}

impl View for CommonChunk {
    type V = Common;

    open spec fn view(&self) -> Common {
        Common {
            num_channels: self.num_channels,
            num_sample_frames: self.num_sample_frames,
            sample_size: self.sample_size,
            sample_rate: self.sample_rate,
            compression_type: self.compression_type,
            compression_name: match self.compression_name {
                Some(s) => Some(s@),
                None => None,
            },
        }
    }
}

/// Bytes that a sample of so many bits takes.
pub open spec fn sample_bytes(bits: int) -> int {
    (bits + 7) / 8
}

impl CommonChunk {
    /// Whether the chunk is that of an `AIFC`.
    pub fn is_aifc(&self) -> (r: bool)
        ensures
            r == (self.compression_type is Some),
    {
        self.compression_type.is_some()
    }

    /// Bytes per sample frame.
    pub fn frame_bytes(&self) -> (n: usize)
        ensures
            n == sample_bytes(self.sample_size as int) * self.num_channels,
            n <= 0x2000 * 0xFFFF,
    {
        let bytes: usize = (self.sample_size as usize + 7) / 8;
        assert(0 <= bytes * self.num_channels <= 0x2000 * 0xFFFF) by (nonlinear_arith)
            requires
                0 <= bytes <= 0x2000,
                0 <= self.num_channels <= 0xFFFF,
        ;
        bytes * self.num_channels as usize
    }

    /// Bytes of all sample frames without compression.
    pub fn pcm_payload_bytes(&self) -> (n: u64)
        ensures
            n == self.num_sample_frames * (sample_bytes(self.sample_size as int)
                * self.num_channels),
    {
        let frame: u64 = self.frame_bytes() as u64;
        assert(0 <= self.num_sample_frames * frame <= 0xFFFF_FFFF * 0x2000_0000)
            by (nonlinear_arith)
            requires
                0 <= self.num_sample_frames <= 0xFFFF_FFFF,
                0 <= frame <= 0x2000_0000,
        ;
        self.num_sample_frames as u64 * frame
    }
}

/// The text of a name with its length in the byte before it.
pub open spec fn pstring(d: Seq<u8>) -> Result<Seq<char>, AiffError> {
    if d.len() == 0 {
        Err(AiffError::Truncated("compressionName pstring length byte"))
    } else if 1 + d[0] > d.len() {
        Err(AiffError::Truncated("compressionName pstring body"))
    } else {
        Ok(lossy_text(d.subrange(1, 1 + d[0])))
    }
}

/// The common chunk in a FORM of the given type.
pub open spec fn common_read(d: Seq<u8>, form_type: [u8; 4]) -> Result<Common, AiffError> {
    let channels = signed16(be16(d, 0));
    let size = signed16(be16(d, 6));
    let rate = extended(d.subrange(8, 18));
    let fixed = Common {
        num_channels: channels as u16,
        num_sample_frames: be32(d, 2),
        sample_size: size as u16,
        sample_rate: rate,
        compression_type: None,
        compression_name: None,
    };
    if d.len() < 18 {
        Err(AiffError::CommTooShort { form_type, declared: d.len() as u32 })
    } else if channels < 1 {
        Err(AiffError::InvalidValue { what: "numChannels", value: channels as i64 })
    } else if !(1 <= size <= 32) {
        Err(AiffError::InvalidSampleSize(be16(d, 6)))
    } else if !is_sample_rate(rate) {
        Err(AiffError::InvalidSampleRate)
    } else if form_type == FORM_AIFF {
        Ok(fixed)
    } else if form_type != FORM_AIFC {
        Err(AiffError::UnknownFormType { found: form_type })
    } else if d.len() < 22 {
        Err(AiffError::CommTooShort { form_type, declared: d.len() as u32 })
    } else {
        match pstring(d.subrange(22, d.len() as int)) {
            Ok(name) => Ok(
                Common {
                    compression_type: Some(id_at(d, 18)),
                    compression_name: Some(name),
                    ..fixed
                },
            ),
            Err(e) => Err(e),
        }
    }
}

/// Reads a name with its length in the byte before it. What follows the name is not looked at.
pub fn parse_pstring(data: &[u8]) -> (r: Result<String, AiffError>)
    ensures
        match r {
            Ok(s) => pstring(data@) == Ok::<Seq<char>, AiffError>(s@),
            Err(e) => pstring(data@) == Err::<Seq<char>, AiffError>(e),
        },
{
    if data.len() == 0 {
        return Err(AiffError::Truncated("compressionName pstring length byte"));
    }
    let len: usize = data[0] as usize;
    if 1 + len > data.len() {
        return Err(AiffError::Truncated("compressionName pstring body"));
    }
    Ok(decode_lossy(slice_subrange(data, 1, 1 + len)))
}

/// Reads the body of a common chunk.
pub fn parse_common(data: &[u8], form_type: [u8; 4]) -> (r: Result<CommonChunk, AiffError>)
    ensures
        match r {
            Ok(c) => common_read(data@, form_type) == Ok::<Common, AiffError>(c@),
            Err(e) => common_read(data@, form_type) == Err::<Common, AiffError>(e),
        },
{
    let n: usize = data.len();
    if n < 18 {
        return Err(AiffError::CommTooShort { form_type, declared: n as u32 });
    }
    let channels: i16 = to_signed16(read_be16(data, 0));
    if channels < 1 {
        return Err(AiffError::InvalidValue { what: "numChannels", value: channels as i64 });
    }
    let frames: u32 = read_be32(data, 2);
    let size_field: u16 = read_be16(data, 6);
    let size: i16 = to_signed16(size_field);
    if size < 1 || size > 32 {
        return Err(AiffError::InvalidSampleSize(size_field));
    }
    let rate_field: [u8; 10] = [
        data[8],
        data[9],
        data[10],
        data[11],
        data[12],
        data[13],
        data[14],
        data[15],
        data[16],
        data[17],
    ];
    assert(rate_field@ =~= data@.subrange(8, 18));
    let sample_rate: Extended = match decode_sample_rate(rate_field) {
        Ok(x) => x,
        Err(e) => {
            return Err(e);
        },
    };
    let mut out: CommonChunk = CommonChunk {
        num_channels: channels as u16,
        num_sample_frames: frames,
        sample_size: size as u16,
        sample_rate,
        compression_type: None,
        compression_name: None,
    };
    if same_id(form_type, FORM_AIFF) {
        return Ok(out);
    }
    if !same_id(form_type, FORM_AIFC) {
        return Err(AiffError::UnknownFormType { found: form_type });
    }
    if n < 22 {
        return Err(AiffError::CommTooShort { form_type, declared: n as u32 });
    }
    match parse_pstring(slice_subrange(data, 22, n)) {
        Ok(name) => {
            out.compression_type = Some(read_id(data, 18));
            out.compression_name = Some(name);
            Ok(out)
        },
        Err(e) => Err(e),
    }
}

/// Why a common chunk cannot be written, if it cannot.
pub open spec fn common_fault(c: Common) -> Option<AiffError> {
    if !(1 <= c.num_channels <= 0x7FFF) {
        Some(AiffError::InvalidValue { what: "numChannels", value: c.num_channels as i64 })
    } else if !(1 <= c.sample_size <= 32) {
        Some(AiffError::InvalidSampleSize(c.sample_size))
    } else if !is_sample_rate(c.sample_rate) {
        Some(AiffError::InvalidSampleRate)
    } else {
        None
    }
}

/// The part of a common chunk that an `AIFF` has.
pub open spec fn fixed_bytes(c: Common) -> Seq<u8> {
    be16_bytes(c.num_channels) + be32_bytes(c.num_sample_frames) + be16_bytes(c.sample_size)
        + extended_bytes(c.sample_rate)
}

/// The body of a common chunk. A compression without a name has the empty name.
pub open spec fn common_bytes(c: Common) -> Seq<u8> {
    match c.compression_type {
        None => fixed_bytes(c),
        Some(t) => fixed_bytes(c) + t@ + pstring_bytes(
            match c.compression_name {
                Some(name) => name,
                None => Seq::empty(),
            },
        ),
    }
}

fn find_common_fault(c: &CommonChunk) -> (r: Option<AiffError>)
    ensures
        r == common_fault(c@),
{
    if c.num_channels < 1 || c.num_channels > 0x7FFF {
        return Some(AiffError::InvalidValue { what: "numChannels", value: c.num_channels as i64 });
    }
    if c.sample_size < 1 || c.sample_size > 32 {
        return Some(AiffError::InvalidSampleSize(c.sample_size));
    }
    match encode_sample_rate(c.sample_rate) {
        Ok(_) => None,
        Err(e) => Some(e),
    }
}

/// Writes the body of a common chunk.
pub fn write_common_chunk(c: &CommonChunk) -> (r: Result<Vec<u8>, AiffError>)
    ensures
        match r {
            Ok(v) => common_fault(c@) is None && v@ == common_bytes(c@),
            Err(e) => common_fault(c@) == Some(e),
        },
{
    if let Some(e) = find_common_fault(c) {
        return Err(e);
    }
    let rate: [u8; 10] = encode_sample_rate(c.sample_rate)?;
    let mut out: Vec<u8> = Vec::new();
    push_be16(&mut out, c.num_channels);
    push_be32(&mut out, c.num_sample_frames);
    push_be16(&mut out, c.sample_size);
    push_all(&mut out, &rate);
    assert(out@ =~= fixed_bytes(c@));
    match c.compression_type {
        Some(t) => {
            push_all(&mut out, &t);
            let ghost head = out@;
            match &c.compression_name {
                Some(name) => {
                    push_pstring(&mut out, name.as_str());
                },
                None => {
                    proof {
                        reveal_strlit("");
                        assert(""@ =~= Seq::empty());
                    }
                    push_pstring(&mut out, "");
                },
            }
            assert(out@ =~= common_bytes(c@));
        },
        None => {},
    }
    Ok(out)
}

/// A common chunk as it comes back from a file.
pub open spec fn stored_common(c: Common) -> Common {
    Common {
        compression_name: match c.compression_type {
            None => None,
            Some(_) => match c.compression_name {
                Some(name) => Some(lossy_text(stored_name(name))),
                None => Some(lossy_text(stored_name(Seq::empty()))),
            },
        },
        ..c
    }
}

proof fn lemma_fixed_back(d: Seq<u8>, c: Common)
    requires
        lies_at(d, 0, fixed_bytes(c)),
        common_fault(c) is None,
    ensures
        d.len() >= 18,
        be16(d, 0) == c.num_channels,
        be32(d, 2) == c.num_sample_frames,
        be16(d, 6) == c.sample_size,
        extended(d.subrange(8, 18)) == c.sample_rate,
{
    let a = be16_bytes(c.num_channels);
    let b = be32_bytes(c.num_sample_frames);
    let s = be16_bytes(c.sample_size);
    let r = extended_bytes(c.sample_rate);
    law_extended_round_trip(c.sample_rate);
    assert(r.len() == 10);
    lemma_lies_split(d, 0, a + b + s, r);
    lemma_lies_split(d, 0, a + b, s);
    lemma_lies_split(d, 0, a, b);
    lemma_lies_be16(d, 0, c.num_channels);
    lemma_lies_be32(d, 2, c.num_sample_frames);
    lemma_lies_be16(d, 6, c.sample_size);
}

proof fn lemma_compression_back(d: Seq<u8>, f: Seq<u8>, t: [u8; 4], name: Seq<char>)
    requires
        f.len() == 18,
        d == f + t@ + pstring_bytes(name),
    ensures
        d.len() >= 22,
        lies_at(d, 0, f),
        id_at(d, 18) == t,
        pstring(d.subrange(22, d.len() as int)) == Ok::<Seq<char>, AiffError>(
            lossy_text(stored_name(name)),
        ),
{
    let text = stored_name(name);
    assert(d.subrange(0, 18) =~= f);
    assert(id_at(d, 18) =~= t);
    let tail = d.subrange(22, d.len() as int);
    assert(tail =~= pstring_bytes(name));
    assert(tail[0] == text.len());
    assert(tail.subrange(1, 1 + tail[0]) =~= text);
}

/// A common chunk that can be written is read back, with as much of the name of its
/// compression as 255 bytes hold, and thus unchanged where that is enough and a name is given
/// just where a compression is.
pub proof fn law_common_round_trip(c: Common)
    requires
        common_fault(c) is None,
    ensures
        common_read(
            common_bytes(c),
            if c.compression_type is Some {
                FORM_AIFC
            } else {
                FORM_AIFF
            },
        ) == Ok::<Common, AiffError>(stored_common(c)),
        (c.compression_type is Some <==> c.compression_name is Some) && (
        c.compression_name matches Some(name) ==> encode_utf8(name).len() <= 255)
            ==> stored_common(c) == c,
{
    let d = common_bytes(c);
    let f = fixed_bytes(c);
    assert(FORM_AIFC[3] != FORM_AIFF[3]);
    match c.compression_type {
        None => {
            assert(d.subrange(0, d.len() as int) =~= d);
            lemma_fixed_back(d, c);
        },
        Some(t) => {
            let name = match c.compression_name {
                Some(name) => name,
                None => Seq::empty(),
            };
            law_extended_round_trip(c.sample_rate);
            lemma_compression_back(d, f, t, name);
            lemma_fixed_back(d, c);
        },
    }
    if let Some(name) = c.compression_name {
        encode_utf8_valid_utf8(name);
        encode_utf8_decode_utf8(name);
    }
}

} // verus!
