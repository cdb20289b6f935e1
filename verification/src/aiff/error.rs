//! Why an AIFF file, or a chunk of one, was rejected.

use vstd::prelude::*;
use crate::text::{
    append_decimal, append_quoted_id, append_signed, decimal, id_text, quoted, signed_decimal,
};
use vstd::string::*;
use vstd::utf8::{
    decode_utf8, encode_utf8, encode_utf8_decode_utf8, encode_utf8_valid_utf8, is_ascii_chars,
    is_ascii_chars_encode_utf8, valid_utf8,
};

verus! {

/// Failure of an AIFF operation.
#[derive(Clone, Debug, PartialEq, Eq)]
#[non_exhaustive]
pub enum AiffError {
    /// The data ends before the named structure does.
    Truncated(&'static str),
    /// The file is not a FORM.
    NotForm {
        /// Id that it starts with.
        found: [u8; 4],
    },
    /// The FORM is neither an `AIFF` nor an `AIFC`.
    UnknownFormType {
        /// Type of the FORM.
        found: [u8; 4],
    },
    /// A chunk is larger than what is left of the data around it.
    OversizedChunk {
        /// Id of the chunk.
        id: [u8; 4],
        /// Size that it declares.
        declared: u32,
        /// Bytes that are there.
        available: u32,
    },
    /// A chunk that has to be there is not.
    MissingChunk(&'static str),
    /// A chunk that may occur once occurs again.
    DuplicateChunk(&'static str),
    /// Two markers have the same id.
    DuplicateMarkerId(i16),
    /// The common chunk is too short for its FORM type.
    CommTooShort {
        /// Type of the FORM.
        form_type: [u8; 4],
        /// Size of the chunk.
        declared: u32,
    },
    /// A field has a value that means nothing.
    InvalidValue {
        /// The field.
        what: &'static str,
        /// The value.
        value: i64,
    },
    /// The sample rate is not a positive finite number.
    InvalidSampleRate,
    /// The sample size is not one of 1 to 32 bits.
    InvalidSampleSize(u16),
    /// The compression is not one of the uncompressed flavours.
    UnsupportedPcmCompression([u8; 4]),
    /// The sound data does not divide into sample frames.
    SsndUnaligned {
        /// Bytes of sound data.
        payload: usize,
        /// Bytes per sample frame.
        frame_size: usize,
    },
}

/// An id with question marks in place of what is not printable ASCII.
pub open spec fn printable(id: [u8; 4]) -> Seq<char> {
    Seq::new(
        4,
        |i: int|
            if 0x20 <= id[i] <= 0x7E {
                id[i] as char
            } else {
                '?'
            },
    )
}

fn printable_byte(b: u8) -> (r: u8)
    ensures
        r == if 0x20 <= b <= 0x7E {
            b
        } else {
            0x3F
        },
{
    if 0x20 <= b && b <= 0x7E {
        b
    } else {
        0x3F
    }
}

/// Printable ASCII bytes spell themselves in UTF-8.
pub proof fn lemma_ascii_text(d: Seq<u8>, s: Seq<char>)
    requires
        d.len() == s.len(),
        forall|i: int| 0 <= i < d.len() ==> #[trigger] d[i] < 0x80 && s[i] == d[i] as char,
    ensures
        id_text(d) == s,
        valid_utf8(d),
        decode_utf8(d) == s,
{
    assert(is_ascii_chars(s)) by {
        assert forall|i: int| 0 <= i < s.len() implies '\0' <= #[trigger] s[i] <= '\u{7f}' by {
            assert(d[i] < 0x80);
        }
    }
    is_ascii_chars_encode_utf8(s);
    assert(encode_utf8(s) =~= d) by {
        assert forall|i: int| 0 <= i < d.len() implies encode_utf8(s)[i] == d[i] by {
            assert(d[i] < 0x80);
        }
    }
    encode_utf8_valid_utf8(s);
    encode_utf8_decode_utf8(s);
}

/// Appends an id in quotation marks, with question marks for what is not printable ASCII.
fn append_fourcc(out: &mut String, id: &[u8; 4])
    ensures
        final(out)@ == old(out)@ + quoted(printable(*id)),
{
    let shown: [u8; 4] = [
        printable_byte(id[0]),
        printable_byte(id[1]),
        printable_byte(id[2]),
        printable_byte(id[3]),
    ];
    proof {
        lemma_ascii_text(shown@, printable(*id));
    }
    append_quoted_id(out, &shown);
}

impl AiffError {
    /// The sentence that describes the failure.
    pub open spec fn text(self) -> Seq<char> {
        match self {
            AiffError::Truncated(what) => "truncated input while parsing "@ + what@,
            AiffError::NotForm { found } => "outermost chunk is "@ + quoted(printable(found))
                + ", expected `FORM`"@,
            AiffError::UnknownFormType { found } => "FORM type "@ + quoted(printable(found))
                + " is neither `AIFF` nor `AIFC`"@,
            AiffError::OversizedChunk { id, declared, available } => "chunk "@
                + quoted(printable(id)) + " declared "@ + decimal(declared as int)
                + " bytes but only "@ + decimal(available as int) + " are available"@,
            AiffError::MissingChunk(what) => "FORM is missing required chunk `"@ + what@ + "`"@,
            AiffError::DuplicateChunk(what) => "FORM holds more than one `"@ + what@ + "` chunk"@,
            AiffError::DuplicateMarkerId(id) => "MarkerId "@ + signed_decimal(id as int)
                + " is used by more than one marker"@,
            AiffError::CommTooShort { form_type, declared } => "COMM ckSize="@
                + decimal(declared as int) + " is below the minimum for form type "@
                + quoted(printable(form_type)),
            AiffError::InvalidValue { what, value } => "invalid value "@
                + signed_decimal(value as int) + " for field `"@ + what@ + "`"@,
            AiffError::InvalidSampleRate => "sampleRate decoded to NaN, infinity, or <= 0"@,
            AiffError::InvalidSampleSize(bits) => "sampleSize="@ + decimal(bits as int)
                + " is outside 1..=32"@,
            AiffError::UnsupportedPcmCompression(c) => "compressionType "@ + quoted(printable(c))
                + " is not a PCM flavour this crate handles"@,
            AiffError::SsndUnaligned { payload, frame_size } => "SSND payload of "@
                + decimal(payload as int) + " bytes is not a multiple of frame_size="@
                + decimal(frame_size as int),
        }
    }

    /// The sentence that describes the failure.
    pub fn message(&self) -> (s: String)
        ensures
            s@ == self.text(),
    {
        let mut s: String = String::new();
        match self {
            AiffError::Truncated(what) => {
                s.append("truncated input while parsing ");
                s.append(what);
            },
            AiffError::NotForm { found } => {
                s.append("outermost chunk is ");
                append_fourcc(&mut s, found);
                s.append(", expected `FORM`");
            },
            AiffError::UnknownFormType { found } => {
                s.append("FORM type ");
                append_fourcc(&mut s, found);
                s.append(" is neither `AIFF` nor `AIFC`");
            },
            AiffError::OversizedChunk { id, declared, available } => {
                s.append("chunk ");
                append_fourcc(&mut s, id);
                s.append(" declared ");
                append_decimal(&mut s, *declared as u64);
                s.append(" bytes but only ");
                append_decimal(&mut s, *available as u64);
                s.append(" are available");
            },
            AiffError::MissingChunk(what) => {
                s.append("FORM is missing required chunk `");
                s.append(what);
                s.append("`");
            },
            AiffError::DuplicateChunk(what) => {
                s.append("FORM holds more than one `");
                s.append(what);
                s.append("` chunk");
            },
            AiffError::DuplicateMarkerId(id) => {
                s.append("MarkerId ");
                append_signed(&mut s, *id as i64);
                s.append(" is used by more than one marker");
            },
            AiffError::CommTooShort { form_type, declared } => {
                s.append("COMM ckSize=");
                append_decimal(&mut s, *declared as u64);
                s.append(" is below the minimum for form type ");
                append_fourcc(&mut s, form_type);
            },
            AiffError::InvalidValue { what, value } => {
                s.append("invalid value ");
                append_signed(&mut s, *value);
                s.append(" for field `");
                s.append(what);
                s.append("`");
            },
            AiffError::InvalidSampleRate => {
                s.append("sampleRate decoded to NaN, infinity, or <= 0");
            },
            AiffError::InvalidSampleSize(bits) => {
                s.append("sampleSize=");
                append_decimal(&mut s, *bits as u64);
                s.append(" is outside 1..=32");
            },
            AiffError::UnsupportedPcmCompression(c) => {
                s.append("compressionType ");
                append_fourcc(&mut s, c);
                s.append(" is not a PCM flavour this crate handles");
            },
            AiffError::SsndUnaligned { payload, frame_size } => {
                s.append("SSND payload of ");
                append_decimal(&mut s, *payload as u64);
                s.append(" bytes is not a multiple of frame_size=");
                append_decimal(&mut s, *frame_size as u64);
            },
        }
        assert(s@ =~= self.text());
        s
    }
}

} // verus!
