//! AIFF and AIFF-C audio files.

use vstd::prelude::*;

pub mod aesd;
pub mod appl;
pub mod chunk;
pub mod comment;
pub mod common;
pub mod contents;
pub mod demuxer;
pub mod error;
pub mod extended;
pub mod fields;
pub mod form;
pub mod instrument;
pub mod marker;
pub mod midi;
pub mod pcm;
pub mod precedence;
pub mod pstring;
pub mod saxel;
pub mod text;

pub use crate::aiff::aesd::{parse_aesd_chunk, write_aesd_chunk, AesdChunk, Emphasis};
pub use crate::aiff::appl::{
    parse_appl_chunk, write_appl_chunk, ApplicationChunk, ApplicationDialect,
};
pub use crate::aiff::chunk::{frame_chunk, write_fver_chunk, Chunk, ChunkIter, AIFC_VERSION_1};
pub use crate::aiff::comment::{
    parse_comments_chunk, write_comments_chunk, Comment, CommentsChunk,
};
pub use crate::aiff::common::{
    parse_common, write_common_chunk, CommonChunk, COMPRESSION_FL32, COMPRESSION_FL32_UC,
    COMPRESSION_FL64, COMPRESSION_FL64_UC, COMPRESSION_NONE, COMPRESSION_RAW, COMPRESSION_SOWT,
    COMPRESSION_TWOS,
};
pub use crate::aiff::demuxer::{make_demuxer, AiffDemuxer, FORMAT_NAME};
pub use crate::aiff::error::AiffError;
pub use crate::aiff::extended::{
    decode_extended, decode_sample_rate, encode_extended, encode_sample_rate, Extended,
};
pub use crate::aiff::form::{parse, write_sound_data, Form, SoundData};
pub use crate::aiff::instrument::{
    parse_instrument_chunk, write_instrument_chunk, InstrumentChunk, Loop, PlayMode, ResolvedLoop,
};
pub use crate::aiff::marker::{parse_marker_chunk, write_marker_chunk, Marker, MarkerChunk};
pub use crate::aiff::midi::{parse_midi_chunk, write_midi_chunk, MidiDataChunk};
pub use crate::aiff::pcm::{decode_pcm, is_pcm_compression, PcmSamples};
pub use crate::aiff::precedence::ChunkClass;
pub use crate::aiff::saxel::{parse_saxel_chunk, write_saxel_chunk, Saxel, SaxelChunk};
pub use crate::aiff::text::{parse_text_chunk, write_text_chunk, TextChunk, TextKind};

verus! {

/// Name of the decoder for whole files.
pub const CODEC_ID_STR: &'static str = "aiff";

} // verus!
