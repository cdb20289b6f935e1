//! A whole AIFF or AIFF-C file.

use vstd::prelude::*;
use crate::aiff::aesd::{aesd_read, parse_aesd_chunk, AesdChunk};
use crate::aiff::appl::{application_read, parse_appl_chunk, Application, ApplicationChunk};
use crate::aiff::chunk::{chunk_list, law_frame_chunk_read_back, Chunk, ChunkData, ChunkIter};
use crate::aiff::comment::{comments_chunk, parse_comments_chunk, CommentData, CommentsChunk};
use crate::aiff::common::{common_read, parse_common, Common, CommonChunk, FORM_AIFC, FORM_AIFF};
use crate::aiff::error::AiffError;
use crate::aiff::instrument::{instrument_read, parse_instrument_chunk, InstrumentChunk};
use crate::aiff::marker::{marker_chunk, parse_marker_chunk, MarkerChunk, MarkerData};
use crate::aiff::midi::{parse_midi_chunk, MidiDataChunk};
use crate::aiff::precedence::{
    chunks_of, APPLICATION_ID, COMMENTS_ID, COMMON_ID, ChunkClass, INSTRUMENT_ID, MARKER_ID,
    MIDI_ID, RECORDING_ID, SAXEL_ID, SOUND_ID, VERSION_ID,
};
use crate::aiff::saxel::{parse_saxel_chunk, saxel_chunk, SaxelChunk, SaxelData};
use crate::aiff::text::{
    parse_text_chunk, ANNOTATION_ID, AUTHOR_ID, COPYRIGHT_ID, NAME_ID, TextChunk, TextData,
    TextKind,
};
use crate::bytes::{
    be32, be32_bytes, id_at, law_be32_round_trip, lemma_lies_be32, lemma_lies_split, lies_at,
    push_all, push_be32, read_be32, read_id, same_id,
};
use crate::chunk::{framed, group_bytes, lemma_group, size_at, GROUP_FORM};
use vstd::slice::slice_subrange;

verus! {

/// The sound data chunk.
#[derive(Clone, Debug, PartialEq, Eq)]
pub struct SoundData<'a> {
    /// Bytes before the first sample frame.
    pub offset: u32,
    /// Size of the blocks that the frames are aligned to.
    pub block_size: u32,
    /// The sample frames.
    pub samples: &'a [u8],
}

/// What a sound data chunk says.
#[verifier::ext_equal]
pub struct Sound {
    /// Bytes before the first sample frame.
    pub offset: u32,
    /// Size of the blocks that the frames are aligned to.
    pub block_size: u32,
    /// The sample frames.
    pub samples: Seq<u8>,
}

impl<'a> View for SoundData<'a> {
    type V = Sound;

    open spec fn view(&self) -> Sound {
        Sound { offset: self.offset, block_size: self.block_size, samples: self.samples@ }
    }
}

/// A file.
#[derive(Clone, Debug, PartialEq, Eq)]
pub struct Form<'a> {
    /// `AIFF` or `AIFC`.
    pub form_type: [u8; 4],
    /// The common chunk.
    pub common: CommonChunk,
    /// The sound data chunk. It may be missing where there are no sample frames.
    pub sound: Option<SoundData<'a>>,
    /// Timestamp of the version of the format.
    pub fver_timestamp: Option<u32>,
    /// The marker chunk.
    pub markers: Option<MarkerChunk>,
    /// The instrument chunk.
    pub instrument: Option<InstrumentChunk>,
    /// The comments chunk.
    pub comments: Option<CommentsChunk>,
    /// The audio recording chunk.
    pub aesd: Option<AesdChunk>,
    /// Application chunks, in the order of the file.
    pub applications: Vec<ApplicationChunk>,
    /// MIDI data chunks, in the order of the file.
    pub midi: Vec<MidiDataChunk>,
    /// Sound accelerator chunks, in the order of the file.
    pub saxels: Vec<SaxelChunk>,
    /// The name.
    pub name: Option<TextChunk>,
    /// The author.
    pub author: Option<TextChunk>,
    /// The copyright.
    pub copyright: Option<TextChunk>,
    /// Annotations, in the order of the file.
    pub annotations: Vec<TextChunk>,
}

/// What the chunks of a file say.
#[verifier::ext_equal]
pub struct Contents {
    /// The common chunk.
    pub common: Option<Common>,
    /// The sound data chunk.
    pub sound: Option<Sound>,
    /// Timestamp of the version of the format.
    pub fver_timestamp: Option<u32>,
    /// The markers.
    pub markers: Option<Seq<MarkerData>>,
    /// The instrument.
    pub instrument: Option<InstrumentChunk>,
    /// The comments.
    pub comments: Option<Seq<CommentData>>,
    /// The channel status.
    pub aesd: Option<Seq<u8>>,
    /// Application chunks.
    pub applications: Seq<Application>,
    /// MIDI data.
    pub midi: Seq<Seq<u8>>,
    /// Sound accelerator chunks.
    pub saxels: Seq<Seq<SaxelData>>,
    /// The name.
    pub name: Option<TextData>,
    /// The author.
    pub author: Option<TextData>,
    /// The copyright.
    pub copyright: Option<TextData>,
    /// Annotations.
    pub annotations: Seq<TextData>,
}

/// What a file says.
#[verifier::ext_equal]
pub struct FormData {
    /// `AIFF` or `AIFC`.
    pub form_type: [u8; 4],
    /// What its chunks say.
    pub contents: Contents,
}

/// The view of what may be missing.
pub open spec fn seen<T: View>(x: Option<T>) -> Option<T::V> {
    match x {
        Some(v) => Some(v@),
        None => None,
    }
}

/// The views of a list.
pub open spec fn all_seen<T: View>(v: Seq<T>) -> Seq<T::V> {
    v.map_values(|x: T| x@)
}

/// The channel status, where there is one.
pub open spec fn status_seen(x: Option<AesdChunk>) -> Option<Seq<u8>> {
    match x {
        Some(c) => Some(c.status@),
        None => None,
    }
}

impl<'a> View for Form<'a> {
    type V = FormData;

    open spec fn view(&self) -> FormData {
        FormData {
            form_type: self.form_type,
            contents: Contents {
                common: Some(self.common@),
                sound: seen(self.sound),
                fver_timestamp: self.fver_timestamp,
                markers: seen(self.markers),
                instrument: self.instrument,
                comments: seen(self.comments),
                aesd: status_seen(self.aesd),
                applications: all_seen(self.applications@),
                midi: all_seen(self.midi@),
                saxels: all_seen(self.saxels@),
                name: seen(self.name),
                author: seen(self.author),
                copyright: seen(self.copyright),
                annotations: all_seen(self.annotations@),
            },
        }
    }
}

/// A file without chunks.
pub open spec fn no_contents() -> Contents {
    Contents {
        common: None,
        sound: None,
        fver_timestamp: None,
        markers: None,
        instrument: None,
        comments: None,
        aesd: None,
        applications: Seq::empty(),
        midi: Seq::empty(),
        saxels: Seq::empty(),
        name: None,
        author: None,
        copyright: None,
        annotations: Seq::empty(),
    }
}

/// The sound data chunk that a body describes.
pub open spec fn sound_read(d: Seq<u8>, size: u32) -> Result<Sound, AiffError> {
    let offset = be32(d, 0);
    if d.len() < 8 {
        Err(AiffError::Truncated("SSND chunk header"))
    } else if 8 + offset > d.len() {
        Err(
            AiffError::OversizedChunk {
                id: SOUND_ID,
                declared: size,
                available: (d.len() - 8) as u32,
            },
        )
    } else {
        Ok(
            Sound {
                offset,
                block_size: be32(d, 4),
                samples: d.subrange(8 + offset, d.len() as int),
            },
        )
    }
}

/// The version timestamp that a body holds.
pub open spec fn version_read(d: Seq<u8>) -> Result<u32, AiffError> {
    if d.len() < 4 {
        Err(AiffError::Truncated("FVER chunk"))
    } else {
        Ok(be32(d, 0))
    }
}

/// The class of the chunks with an id.
pub open spec fn class_of(id: [u8; 4]) -> Option<ChunkClass> {
    if id == COMMON_ID {
        Some(ChunkClass::Common)
    } else if id == SOUND_ID {
        Some(ChunkClass::SoundData)
    } else if id == VERSION_ID {
        Some(ChunkClass::FormatVersion)
    } else if id == MARKER_ID {
        Some(ChunkClass::Marker)
    } else if id == INSTRUMENT_ID {
        Some(ChunkClass::Instrument)
    } else if id == COMMENTS_ID {
        Some(ChunkClass::Comments)
    } else if id == RECORDING_ID {
        Some(ChunkClass::AudioRecording)
    } else if id == APPLICATION_ID {
        Some(ChunkClass::ApplicationSpecific)
    } else if id == MIDI_ID {
        Some(ChunkClass::MidiData)
    } else if id == SAXEL_ID {
        Some(ChunkClass::Saxel)
    } else if id == NAME_ID {
        Some(ChunkClass::Name)
    } else if id == AUTHOR_ID {
        Some(ChunkClass::Author)
    } else if id == COPYRIGHT_ID {
        Some(ChunkClass::Copyright)
    } else if id == ANNOTATION_ID {
        Some(ChunkClass::Annotation)
    } else {
        None
    }
}

/// The contents with one more chunk of the given class. A common, sound data or version chunk
/// takes the place of an earlier one. Of the other chunks that may occur once a second is an
/// error; the rest are kept in order.
pub open spec fn put(form_type: [u8; 4], p: Contents, class: ChunkClass, c: ChunkData) -> Result<
    Contents,
    AiffError,
> {
    match class {
        ChunkClass::Common => match common_read(c.body, form_type) {
            Ok(x) => Ok(Contents { common: Some(x), ..p }),
            Err(e) => Err(e),
        },
        ChunkClass::SoundData => match sound_read(c.body, c.size) {
            Ok(x) => Ok(Contents { sound: Some(x), ..p }),
            Err(e) => Err(e),
        },
        ChunkClass::FormatVersion => match version_read(c.body) {
            Ok(x) => Ok(Contents { fver_timestamp: Some(x), ..p }),
            Err(e) => Err(e),
        },
        ChunkClass::Marker => if p.markers is Some {
            Err(AiffError::DuplicateChunk("MARK"))
        } else {
            match marker_chunk(c.body) {
                Ok(x) => Ok(Contents { markers: Some(x), ..p }),
                Err(e) => Err(e),
            }
        },
        ChunkClass::Instrument => if p.instrument is Some {
            Err(AiffError::DuplicateChunk("INST"))
        } else {
            match instrument_read(c.body) {
                Ok(x) => Ok(Contents { instrument: Some(x), ..p }),
                Err(e) => Err(e),
            }
        },
        ChunkClass::Comments => if p.comments is Some {
            Err(AiffError::DuplicateChunk("COMT"))
        } else {
            match comments_chunk(c.body) {
                Ok(x) => Ok(Contents { comments: Some(x), ..p }),
                Err(e) => Err(e),
            }
        },
        ChunkClass::AudioRecording => if p.aesd is Some {
            Err(AiffError::DuplicateChunk("AESD"))
        } else {
            match aesd_read(c.body) {
                Ok(x) => Ok(Contents { aesd: Some(x), ..p }),
                Err(e) => Err(e),
            }
        },
        ChunkClass::ApplicationSpecific => match application_read(c.body) {
            Ok(x) => Ok(Contents { applications: p.applications.push(x), ..p }),
            Err(e) => Err(e),
        },
        ChunkClass::MidiData => Ok(Contents { midi: p.midi.push(c.body), ..p }),
        ChunkClass::Saxel => match saxel_chunk(c.body) {
            Ok(x) => Ok(Contents { saxels: p.saxels.push(x), ..p }),
            Err(e) => Err(e),
        },
        ChunkClass::Name => if p.name is Some {
            Err(AiffError::DuplicateChunk("NAME"))
        } else {
            Ok(Contents { name: Some(TextData { kind: TextKind::Name, text: c.body }), ..p })
        },
        ChunkClass::Author => if p.author is Some {
            Err(AiffError::DuplicateChunk("AUTH"))
        } else {
            Ok(Contents { author: Some(TextData { kind: TextKind::Author, text: c.body }), ..p })
        },
        ChunkClass::Copyright => if p.copyright is Some {
            Err(AiffError::DuplicateChunk("(c) "))
        } else {
            Ok(
                Contents {
                    copyright: Some(TextData { kind: TextKind::Copyright, text: c.body }),
                    ..p
                },
            )
        },
        ChunkClass::Annotation => Ok(
            Contents {
                annotations: p.annotations.push(
                    TextData { kind: TextKind::Annotation, text: c.body },
                ),
                ..p
            },
        ),
    }
}

/// The contents with one more chunk. Chunks of no known class are skipped.
pub open spec fn added(form_type: [u8; 4], p: Contents, c: ChunkData) -> Result<
    Contents,
    AiffError,
> {
    match class_of(c.id) {
        Some(class) => put(form_type, p, class, c),
        None => Ok(p),
    }
}

/// The contents with more chunks, up to the first that is an error.
pub open spec fn gathered(
    form_type: [u8; 4],
    p: Contents,
    list: Seq<Result<ChunkData, AiffError>>,
) -> Result<Contents, AiffError>
    decreases list.len(),
{
    if list.len() == 0 {
        Ok(p)
    } else {
        match list[0] {
            Ok(c) => match added(form_type, p, c) {
                Ok(q) => gathered(form_type, q, list.drop_first()),
                Err(e) => Err(e),
            },
            Err(e) => Err(e),
        }
    }
}

/// A file with the given contents, which have to hold a common chunk and, where there are
/// sample frames, a sound data chunk.
pub open spec fn finished(form_type: [u8; 4], p: Contents) -> Result<FormData, AiffError> {
    match p.common {
        None => Err(AiffError::MissingChunk("COMM")),
        Some(c) => if c.num_sample_frames > 0 && p.sound is None {
            Err(AiffError::MissingChunk("SSND"))
        } else {
            Ok(FormData { form_type, contents: p })
        },
    }
}

/// The chunks of the file `d`: as much as its size announces, as far as it is there.
pub open spec fn inner(d: Seq<u8>) -> Seq<u8> {
    let end = if size_at(d, 0) < 4 {
        12
    } else if 8 + size_at(d, 0) > d.len() {
        d.len() as int
    } else {
        8 + size_at(d, 0)
    };
    d.subrange(12, end)
}

/// The file that bytes describe.
pub open spec fn form_read(d: Seq<u8>) -> Result<FormData, AiffError> {
    if d.len() < 12 {
        Err(AiffError::Truncated("FORM header"))
    } else if id_at(d, 0) != GROUP_FORM {
        Err(AiffError::NotForm { found: id_at(d, 0) })
    } else if id_at(d, 8) != FORM_AIFF && id_at(d, 8) != FORM_AIFC {
        Err(AiffError::UnknownFormType { found: id_at(d, 8) })
    } else {
        match gathered(id_at(d, 8), no_contents(), chunk_list(inner(d))) {
            Ok(p) => finished(id_at(d, 8), p),
            Err(e) => Err(e),
        }
    }
}

fn find_class(id: [u8; 4]) -> (r: Option<ChunkClass>)
    ensures
        r == class_of(id),
{
    if same_id(id, COMMON_ID) {
        Some(ChunkClass::Common)
    } else if same_id(id, SOUND_ID) {
        Some(ChunkClass::SoundData)
    } else if same_id(id, VERSION_ID) {
        Some(ChunkClass::FormatVersion)
    } else if same_id(id, MARKER_ID) {
        Some(ChunkClass::Marker)
    } else if same_id(id, INSTRUMENT_ID) {
        Some(ChunkClass::Instrument)
    } else if same_id(id, COMMENTS_ID) {
        Some(ChunkClass::Comments)
    } else if same_id(id, RECORDING_ID) {
        Some(ChunkClass::AudioRecording)
    } else if same_id(id, APPLICATION_ID) {
        Some(ChunkClass::ApplicationSpecific)
    } else if same_id(id, MIDI_ID) {
        Some(ChunkClass::MidiData)
    } else if same_id(id, SAXEL_ID) {
        Some(ChunkClass::Saxel)
    } else {
        match TextKind::from_ck_id(&id) {
            Some(TextKind::Name) => Some(ChunkClass::Name),
            Some(TextKind::Author) => Some(ChunkClass::Author),
            Some(TextKind::Copyright) => Some(ChunkClass::Copyright),
            Some(TextKind::Annotation) => Some(ChunkClass::Annotation),
            None => None,
        }
    }
}

/// Reads the body of a sound data chunk of the declared size.
pub fn parse_sound_data<'a>(data: &'a [u8], size: u32) -> (r: Result<SoundData<'a>, AiffError>)
    requires
        data@.len() == size,
    ensures
        match r {
            Ok(s) => sound_read(data@, size) == Ok::<Sound, AiffError>(s@),
            Err(e) => sound_read(data@, size) == Err::<Sound, AiffError>(e),
        },
{
    let n: usize = data.len();
    if n < 8 {
        return Err(AiffError::Truncated("SSND chunk header"));
    }
    let offset: u32 = read_be32(data, 0);
    let block_size: u32 = read_be32(data, 4);
    let available: usize = n - 8;
    if offset as u64 > available as u64 {
        return Err(
            AiffError::OversizedChunk { id: SOUND_ID, declared: size, available: available as u32 },
        );
    }
    let samples: &'a [u8] = slice_subrange(data, 8 + offset as usize, n);
    Ok(SoundData { offset, block_size, samples })
}

fn parse_version(data: &[u8]) -> (r: Result<u32, AiffError>)
    ensures
        r == version_read(data@),
{
    if data.len() < 4 {
        return Err(AiffError::Truncated("FVER chunk"));
    }
    Ok(read_be32(data, 0))
}

/// The chunks that were read so far.
struct Parts<'a> {
    common: Option<CommonChunk>,
    sound: Option<SoundData<'a>>,
    fver_timestamp: Option<u32>,
    markers: Option<MarkerChunk>,
    instrument: Option<InstrumentChunk>,
    comments: Option<CommentsChunk>,
    aesd: Option<AesdChunk>,
    applications: Vec<ApplicationChunk>,
    midi: Vec<MidiDataChunk>,
    saxels: Vec<SaxelChunk>,
    name: Option<TextChunk>,
    author: Option<TextChunk>,
    copyright: Option<TextChunk>,
    annotations: Vec<TextChunk>,
}

/// A list with one more item shows one more view.
proof fn lemma_one_more<T: View>(v: Seq<T>, x: T)
    ensures
        all_seen(v.push(x)) == all_seen(v).push(x@),
{
    assert(all_seen(v.push(x)) =~= all_seen(v).push(x@));
}

impl<'a> Parts<'a> {
    spec fn view(&self) -> Contents {
        Contents {
            common: seen(self.common),
            sound: seen(self.sound),
            fver_timestamp: self.fver_timestamp,
            markers: seen(self.markers),
            instrument: self.instrument,
            comments: seen(self.comments),
            aesd: status_seen(self.aesd),
            applications: all_seen(self.applications@),
            midi: all_seen(self.midi@),
            saxels: all_seen(self.saxels@),
            name: seen(self.name),
            author: seen(self.author),
            copyright: seen(self.copyright),
            annotations: all_seen(self.annotations@),
        }
    }

    fn new() -> (p: Self)
        ensures
            p@ == no_contents(),
    {
        let p: Parts<'a> = Parts {
            common: None,
            sound: None,
            fver_timestamp: None,
            markers: None,
            instrument: None,
            comments: None,
            aesd: None,
            applications: Vec::new(),
            midi: Vec::new(),
            saxels: Vec::new(),
            name: None,
            author: None,
            copyright: None,
            annotations: Vec::new(),
        };
        assert(p@ =~= no_contents());
        p
    }

    /// Adds a chunk, or says why it cannot be added.
    fn put(&mut self, form_type: [u8; 4], class: ChunkClass, chunk: Chunk<'a>) -> (r: Result<
        (),
        AiffError,
    >)
        requires
            chunk.data@.len() == chunk.size,
        ensures
            match r {
                Ok(_) => put(form_type, old(self)@, class, chunk@) == Ok::<Contents, AiffError>(
                    final(self)@,
                ),
                Err(e) => put(form_type, old(self)@, class, chunk@) == Err::<Contents, AiffError>(e),
            },
    {
        match class {
            ChunkClass::Common => {
                let x: CommonChunk = parse_common(chunk.data, form_type)?;
                self.common = Some(x);
            },
            ChunkClass::SoundData => {
                let x: SoundData<'a> = parse_sound_data(chunk.data, chunk.size)?;
                self.sound = Some(x);
            },
            ChunkClass::FormatVersion => {
                let x: u32 = parse_version(chunk.data)?;
                self.fver_timestamp = Some(x);
            },
            ChunkClass::Marker => {
                if self.markers.is_some() {
                    return Err(AiffError::DuplicateChunk("MARK"));
                }
                let x: MarkerChunk = parse_marker_chunk(chunk.data)?;
                self.markers = Some(x);
            },
            ChunkClass::Instrument => {
                if self.instrument.is_some() {
                    return Err(AiffError::DuplicateChunk("INST"));
                }
                let x: InstrumentChunk = parse_instrument_chunk(chunk.data)?;
                self.instrument = Some(x);
            },
            ChunkClass::Comments => {
                if self.comments.is_some() {
                    return Err(AiffError::DuplicateChunk("COMT"));
                }
                let x: CommentsChunk = parse_comments_chunk(chunk.data)?;
                self.comments = Some(x);
            },
            ChunkClass::AudioRecording => {
                if self.aesd.is_some() {
                    return Err(AiffError::DuplicateChunk("AESD"));
                }
                let x: AesdChunk = parse_aesd_chunk(chunk.data)?;
                self.aesd = Some(x);
            },
            ChunkClass::ApplicationSpecific => {
                let x: ApplicationChunk = parse_appl_chunk(chunk.data)?;
                proof {
                    lemma_one_more(self.applications@, x);
                }
                self.applications.push(x);
            },
            ChunkClass::MidiData => {
                let x: MidiDataChunk = parse_midi_chunk(chunk.data)?;
                proof {
                    lemma_one_more(self.midi@, x);
                }
                self.midi.push(x);
            },
            ChunkClass::Saxel => {
                let x: SaxelChunk = parse_saxel_chunk(chunk.data)?;
                proof {
                    lemma_one_more(self.saxels@, x);
                }
                self.saxels.push(x);
            },
            ChunkClass::Name => {
                if self.name.is_some() {
                    return Err(AiffError::DuplicateChunk("NAME"));
                }
                let x: TextChunk = parse_text_chunk(TextKind::Name, chunk.data)?;
                self.name = Some(x);
            },
            ChunkClass::Author => {
                if self.author.is_some() {
                    return Err(AiffError::DuplicateChunk("AUTH"));
                }
                let x: TextChunk = parse_text_chunk(TextKind::Author, chunk.data)?;
                self.author = Some(x);
            },
            ChunkClass::Copyright => {
                if self.copyright.is_some() {
                    return Err(AiffError::DuplicateChunk("(c) "));
                }
                let x: TextChunk = parse_text_chunk(TextKind::Copyright, chunk.data)?;
                self.copyright = Some(x);
            },
            ChunkClass::Annotation => {
                let x: TextChunk = parse_text_chunk(TextKind::Annotation, chunk.data)?;
                proof {
                    lemma_one_more(self.annotations@, x);
                }
                self.annotations.push(x);
            },
        }
        Ok(())
    }

    /// Makes a file of the chunks, or says which is missing.
    fn finish(self, form_type: [u8; 4]) -> (r: Result<Form<'a>, AiffError>)
        ensures
            match r {
                Ok(f) => finished(form_type, self@) == Ok::<FormData, AiffError>(f@),
                Err(e) => finished(form_type, self@) == Err::<FormData, AiffError>(e),
            },
    {
        match self.common {
            None => Err(AiffError::MissingChunk("COMM")),
            Some(common) => {
                if common.num_sample_frames > 0 && self.sound.is_none() {
                    return Err(AiffError::MissingChunk("SSND"));
                }
                Ok(
                    Form {
                        form_type,
                        common,
                        sound: self.sound,
                        fver_timestamp: self.fver_timestamp,
                        markers: self.markers,
                        instrument: self.instrument,
                        comments: self.comments,
                        aesd: self.aesd,
                        applications: self.applications,
                        midi: self.midi,
                        saxels: self.saxels,
                        name: self.name,
                        author: self.author,
                        copyright: self.copyright,
                        annotations: self.annotations,
                    },
                )
            },
        }
    }
}

/// Reads a file.
pub fn parse<'a>(buf: &'a [u8]) -> (r: Result<Form<'a>, AiffError>)
    ensures
        match r {
            Ok(f) => form_read(buf@) == Ok::<FormData, AiffError>(f@),
            Err(e) => form_read(buf@) == Err::<FormData, AiffError>(e),
        },
{
    let n: usize = buf.len();
    if n < 12 {
        return Err(AiffError::Truncated("FORM header"));
    }
    let id: [u8; 4] = read_id(buf, 0);
    if !same_id(id, GROUP_FORM) {
        return Err(AiffError::NotForm { found: id });
    }
    let size: u32 = read_be32(buf, 4);
    let form_type: [u8; 4] = read_id(buf, 8);
    if !same_id(form_type, FORM_AIFF) && !same_id(form_type, FORM_AIFC) {
        return Err(AiffError::UnknownFormType { found: form_type });
    }
    let end: usize = if size < 4 {
        12
    } else if size as u64 > (n - 8) as u64 {
        n
    } else {
        8 + size as usize
    };
    let chunks: &'a [u8] = slice_subrange(buf, 12, end);
    let mut it: ChunkIter<'a> = ChunkIter::new(chunks);
    let mut parts: Parts<'a> = Parts::new();
    let ghost want = gathered(form_type, no_contents(), chunk_list(inner(buf@)));
    loop
        invariant
            gathered(form_type, parts@, chunk_list(it@)) == want,
            want == gathered(form_type, no_contents(), chunk_list(inner(buf@))),
            form_read(buf@) == match want {
                Ok(p) => finished(form_type, p),
                Err(e) => Err(e),
            },
        decreases it@.len(),
    {
        let ghost list = chunk_list(it@);
        match it.next() {
            None => {
                return parts.finish(form_type);
            },
            Some(Err(e)) => {
                return Err(e);
            },
            Some(Ok(chunk)) => {
                assert(list.drop_first() =~= chunk_list(it@));
                match find_class(chunk.id) {
                    Some(class) => {
                        parts.put(form_type, class, chunk)?;
                    },
                    None => {},
                }
            },
        }
    }
}

/// The body of a sound data chunk: as many zero bytes as its offset says stand before the
/// sample frames.
pub open spec fn sound_bytes(s: Sound) -> Seq<u8> {
    be32_bytes(s.offset) + be32_bytes(s.block_size) + Seq::new(s.offset as nat, |i: int| 0u8)
        + s.samples
}

/// Writes the body of a sound data chunk.
pub fn write_sound_data<'a>(s: &SoundData<'a>) -> (out: Vec<u8>)
    ensures
        out@ == sound_bytes(s@),
{
    let mut out: Vec<u8> = Vec::new();
    push_be32(&mut out, s.offset);
    push_be32(&mut out, s.block_size);
    let ghost head = out@;
    let mut i: u32 = 0;
    while i < s.offset
        invariant
            i <= s.offset,
            out@ == head + Seq::new(i as nat, |k: int| 0u8),
        decreases s.offset - i,
    {
        out.push(0);
        i += 1;
        assert(out@ =~= head + Seq::new(i as nat, |k: int| 0u8));
    }
    push_all(&mut out, s.samples);
    assert(out@ =~= sound_bytes(s@));
    out
}

/// Sound data that are written are read back.
pub proof fn law_sound_round_trip(s: Sound, size: u32)
    ensures
        sound_read(sound_bytes(s), size) == Ok::<Sound, AiffError>(s),
{
    let d = sound_bytes(s);
    let a = be32_bytes(s.offset);
    let b = be32_bytes(s.block_size);
    let z = Seq::new(s.offset as nat, |i: int| 0u8);
    assert(lies_at(d, 0, a + b + z + s.samples)) by {
        assert(d.subrange(0, d.len() as int) =~= d);
    }
    lemma_lies_split(d, 0, a + b + z, s.samples);
    lemma_lies_split(d, 0, a + b, z);
    lemma_lies_split(d, 0, a, b);
    lemma_lies_be32(d, 0, s.offset);
    lemma_lies_be32(d, 4, s.block_size);
}

/// A version timestamp that is written is read back.
pub proof fn law_version_round_trip(timestamp: u32)
    ensures
        version_read(be32_bytes(timestamp)) == Ok::<u32, AiffError>(timestamp),
{
    law_be32_round_trip(timestamp);
}

/// A chunk of no known class changes nothing, wherever it stands.
pub proof fn law_unknown_chunk_skipped(
    form_type: [u8; 4],
    p: Contents,
    before: Seq<Result<ChunkData, AiffError>>,
    c: ChunkData,
    after: Seq<Result<ChunkData, AiffError>>,
)
    requires
        class_of(c.id) is None,
    ensures
        gathered(form_type, p, before + seq![Ok::<ChunkData, AiffError>(c)] + after) == gathered(
            form_type,
            p,
            before + after,
        ),
    decreases before.len(),
{
    let x = seq![Ok::<ChunkData, AiffError>(c)];
    if before.len() == 0 {
        assert((before + x + after).drop_first() =~= before + after);
    } else {
        let rest = before.drop_first();
        assert((before + x + after).drop_first() =~= rest + x + after);
        assert((before + after).drop_first() =~= rest + after);
        match before[0] {
            Ok(b) => match added(form_type, p, b) {
                Ok(q) => {
                    law_unknown_chunk_skipped(form_type, q, rest, c, after);
                },
                Err(_) => {},
            },
            Err(_) => {},
        }
    }
}

proof fn lemma_commute(form_type: [u8; 4], p: Contents, x: ChunkData, y: ChunkData)
    requires
        class_of(x.id) != class_of(y.id),
        added(form_type, p, x) is Ok,
        added(form_type, added(form_type, p, x)->Ok_0, y) is Ok,
    ensures
        added(form_type, p, y) is Ok,
        added(form_type, added(form_type, p, y)->Ok_0, x) == added(
            form_type,
            added(form_type, p, x)->Ok_0,
            y,
        ),
{
}

/// The order of two chunks of different classes does not matter: a file that can be read is
/// read in the same way where two such neighbours are swapped.
pub proof fn law_chunk_order_free(
    form_type: [u8; 4],
    p: Contents,
    before: Seq<Result<ChunkData, AiffError>>,
    x: ChunkData,
    y: ChunkData,
    after: Seq<Result<ChunkData, AiffError>>,
)
    requires
        class_of(x.id) != class_of(y.id),
    ensures
        ({
            let xy = before + seq![Ok::<ChunkData, AiffError>(x), Ok(y)] + after;
            let yx = before + seq![Ok::<ChunkData, AiffError>(y), Ok(x)] + after;
            gathered(form_type, p, xy) is Ok ==> gathered(form_type, p, yx) == gathered(
                form_type,
                p,
                xy,
            )
        }),
    decreases before.len(),
{
    let a = seq![Ok::<ChunkData, AiffError>(x), Ok(y)];
    let b = seq![Ok::<ChunkData, AiffError>(y), Ok(x)];
    let xy = before + a + after;
    let yx = before + b + after;
    if before.len() == 0 {
        assert(xy.drop_first().drop_first() =~= after);
        assert(yx.drop_first().drop_first() =~= after);
        assert(xy[0] == a[0] && xy.drop_first()[0] == a[1]);
        assert(yx[0] == b[0] && yx.drop_first()[0] == b[1]);
        if gathered(form_type, p, xy) is Ok {
            reveal_with_fuel(gathered, 3);
            lemma_commute(form_type, p, x, y);
        }
    } else {
        let rest = before.drop_first();
        assert(xy.drop_first() =~= rest + a + after);
        assert(yx.drop_first() =~= rest + b + after);
        match before[0] {
            Ok(c) => match added(form_type, p, c) {
                Ok(q) => {
                    law_chunk_order_free(form_type, q, rest, x, y, after);
                },
                Err(_) => {},
            },
            Err(_) => {},
        }
    }
}

/// Whether a second chunk of the class is an error.
pub open spec fn at_most_once(class: ChunkClass) -> bool {
    match class {
        ChunkClass::Marker => true,
        ChunkClass::Instrument => true,
        ChunkClass::Comments => true,
        ChunkClass::AudioRecording => true,
        ChunkClass::Name => true,
        ChunkClass::Author => true,
        ChunkClass::Copyright => true,
        _ => false,
    }
}

/// Whether item `i` is a chunk of the class.
pub open spec fn is_of(
    list: Seq<Result<ChunkData, AiffError>>,
    i: int,
    class: ChunkClass,
) -> bool {
    list[i] matches Ok(c) && class_of(c.id) == Some(class)
}

proof fn lemma_second_rejected(
    form_type: [u8; 4],
    p: Contents,
    list: Seq<Result<ChunkData, AiffError>>,
    class: ChunkClass,
    j: int,
)
    requires
        at_most_once(class),
        chunks_of(p, class) > 0,
        0 <= j < list.len(),
        is_of(list, j, class),
    ensures
        gathered(form_type, p, list) is Err,
    decreases list.len(),
{
    match list[0] {
        Ok(c) => match added(form_type, p, c) {
            Ok(q) => {
                if j > 0 {
                    assert(chunks_of(q, class) > 0);
                    assert(is_of(list.drop_first(), j - 1, class));
                    lemma_second_rejected(form_type, q, list.drop_first(), class, j - 1);
                }
            },
            Err(_) => {},
        },
        Err(_) => {},
    }
}

/// How a second chunk of a class that may occur once is named.
pub open spec fn duplicate_name(class: ChunkClass) -> &'static str {
    match class {
        ChunkClass::Marker => "MARK",
        ChunkClass::Instrument => "INST",
        ChunkClass::Comments => "COMT",
        ChunkClass::AudioRecording => "AESD",
        ChunkClass::Name => "NAME",
        ChunkClass::Author => "AUTH",
        _ => "(c) ",
    }
}

proof fn lemma_duplicate_named(
    form_type: [u8; 4],
    p: Contents,
    list: Seq<Result<ChunkData, AiffError>>,
    class: ChunkClass,
    j: int,
)
    requires
        at_most_once(class),
        0 <= j < list.len(),
        is_of(list, j, class),
        chunks_of(p, class) > 0 || exists|i: int| 0 <= i < j && #[trigger] is_of(list, i, class),
        gathered(form_type, p, list.take(j)) is Ok,
    ensures
        gathered(form_type, p, list) == Err::<Contents, AiffError>(
            AiffError::DuplicateChunk(duplicate_name(class)),
        ),
    decreases list.len(),
{
    if j > 0 {
        let rest = list.drop_first();
        let c = list[0]->Ok_0;
        assert(list.take(j)[0] == list[0]);
        assert(list.take(j).drop_first() =~= rest.take(j - 1));
        assert(list[0] is Ok && added(form_type, p, c) is Ok);
        let q = added(form_type, p, c)->Ok_0;
        assert(is_of(rest, j - 1, class) == is_of(list, j, class));
        if chunks_of(p, class) > 0 || is_of(list, 0, class) {
            assert(chunks_of(q, class) > 0);
        } else {
            let i = choose|i: int| 0 <= i < j && #[trigger] is_of(list, i, class);
            assert(is_of(rest, i - 1, class) == is_of(list, i, class));
        }
        lemma_duplicate_named(form_type, q, rest, class, j - 1);
    }
}

/// Of the chunks that may occur once, a file with two cannot be read. Where all chunks before
/// the second can be, the error names it.
pub proof fn law_second_chunk_rejected(
    form_type: [u8; 4],
    p: Contents,
    list: Seq<Result<ChunkData, AiffError>>,
    class: ChunkClass,
    i: int,
    j: int,
)
    requires
        at_most_once(class),
        0 <= i < j < list.len(),
        is_of(list, i, class),
        is_of(list, j, class),
    ensures
        gathered(form_type, p, list) is Err,
        gathered(form_type, p, list.take(j)) is Ok ==> gathered(form_type, p, list) == Err::<
            Contents,
            AiffError,
        >(AiffError::DuplicateChunk(duplicate_name(class))),
    decreases list.len(),
{
    if gathered(form_type, p, list.take(j)) is Ok {
        assert(is_of(list, i, class));
        lemma_duplicate_named(form_type, p, list, class, j);
    }
    match list[0] {
        Ok(c) => match added(form_type, p, c) {
            Ok(q) => {
                let rest = list.drop_first();
                assert(is_of(rest, j - 1, class));
                if i == 0 {
                    assert(chunks_of(q, class) > 0);
                    lemma_second_rejected(form_type, q, rest, class, j - 1);
                } else {
                    assert(is_of(rest, i - 1, class));
                    law_second_chunk_rejected(form_type, q, rest, class, i - 1, j - 1);
                }
            },
            Err(_) => {},
        },
        Err(_) => {},
    }
}

/// The chunks of a class, in the order of the list.
pub open spec fn chunks_in(list: Seq<Result<ChunkData, AiffError>>, class: ChunkClass) -> Seq<
    ChunkData,
>
    decreases list.len(),
{
    if list.len() == 0 {
        Seq::empty()
    } else {
        (if is_of(list, 0, class) {
            seq![list[0]->Ok_0]
        } else {
            Seq::empty()
        }) + chunks_in(list.drop_first(), class)
    }
}

/// Whether two lists hold the same chunks, those of one class in the same order. Chunks of no
/// known class do not count.
pub open spec fn same_chunks(
    a: Seq<Result<ChunkData, AiffError>>,
    b: Seq<Result<ChunkData, AiffError>>,
) -> bool {
    forall|class: ChunkClass| #[trigger] chunks_in(a, class) == chunks_in(b, class)
}

/// Whether every chunk of a list is whole.
pub open spec fn all_whole(list: Seq<Result<ChunkData, AiffError>>) -> bool {
    forall|i: int| 0 <= i < list.len() ==> (#[trigger] list[i]) is Ok
}

/// Where the first chunk of a class stands.
proof fn lemma_first_of(list: Seq<Result<ChunkData, AiffError>>, class: ChunkClass) -> (j: int)
    requires
        chunks_in(list, class).len() > 0,
    ensures
        0 <= j < list.len(),
        is_of(list, j, class),
        list[j] == Ok::<ChunkData, AiffError>(chunks_in(list, class)[0]),
        forall|i: int| 0 <= i < j ==> !#[trigger] is_of(list, i, class),
    decreases list.len(),
{
    if is_of(list, 0, class) {
        0
    } else {
        let rest = list.drop_first();
        assert(chunks_in(list, class) =~= chunks_in(rest, class));
        let k = lemma_first_of(rest, class);
        assert(is_of(list, k + 1, class) == is_of(rest, k, class));
        assert forall|i: int| 0 <= i < k + 1 implies !#[trigger] is_of(list, i, class) by {
            if i > 0 {
                assert(is_of(list, i, class) == is_of(rest, i - 1, class));
            }
        }
        k + 1
    }
}

/// Taking a chunk out of a list takes it out of the chunks of its class, where it is the first
/// of them, and out of no others.
proof fn lemma_taken_out(
    list: Seq<Result<ChunkData, AiffError>>,
    class: ChunkClass,
    j: int,
    other: ChunkClass,
)
    requires
        0 <= j < list.len(),
        is_of(list, j, class),
        forall|i: int| 0 <= i < j ==> !#[trigger] is_of(list, i, class),
    ensures
        chunks_in(list.remove(j), other) == if other == class {
            chunks_in(list, class).drop_first()
        } else {
            chunks_in(list, other)
        },
        chunks_in(list, class).len() > 0,
    decreases list.len(),
{
    let rest = list.drop_first();
    let out = list.remove(j);
    if j == 0 {
        assert(out =~= rest);
        assert(chunks_in(list, class).drop_first() =~= chunks_in(rest, class));
        if other != class {
            assert(!is_of(list, 0, other));
            assert(chunks_in(list, other) =~= chunks_in(rest, other));
        }
    } else {
        assert(is_of(rest, j - 1, class) == is_of(list, j, class));
        assert forall|i: int| 0 <= i < j - 1 implies !#[trigger] is_of(rest, i, class) by {
            assert(is_of(rest, i, class) == is_of(list, i + 1, class));
        }
        lemma_taken_out(rest, class, j - 1, other);
        assert(out.drop_first() =~= rest.remove(j - 1));
        assert(is_of(out, 0, other) == is_of(list, 0, other));
        assert(!is_of(list, 0, class));
        assert(chunks_in(list, class) =~= chunks_in(rest, class));
        assert(chunks_in(out, other) =~= if other == class {
            chunks_in(list, class).drop_first()
        } else {
            chunks_in(list, other)
        });
    }
}

/// A chunk may as well stand further behind, past chunks of other classes.
proof fn lemma_moved_back(
    form_type: [u8; 4],
    p: Contents,
    c: ChunkData,
    list: Seq<Result<ChunkData, AiffError>>,
    j: int,
)
    requires
        0 <= j <= list.len(),
        class_of(c.id) is Some,
        all_whole(list),
        forall|i: int| 0 <= i < j ==> !#[trigger] is_of(list, i, class_of(c.id)->Some_0),
        gathered(form_type, p, seq![Ok::<ChunkData, AiffError>(c)] + list) is Ok,
    ensures
        gathered(form_type, p, list.insert(j, Ok(c))) == gathered(
            form_type,
            p,
            seq![Ok::<ChunkData, AiffError>(c)] + list,
        ),
    decreases j,
{
    let front = seq![Ok::<ChunkData, AiffError>(c)] + list;
    let moved = list.insert(j, Ok(c));
    if j == 0 {
        assert(moved =~= front);
    } else {
        let rest = list.drop_first();
        let y = list[0]->Ok_0;
        assert(list[0] is Ok);
        assert(!is_of(list, 0, class_of(c.id)->Some_0));
        let none = Seq::<Result<ChunkData, AiffError>>::empty();
        law_chunk_order_free(form_type, p, none, c, y, rest);
        let next = seq![Ok::<ChunkData, AiffError>(c)] + rest;
        let swapped = none + seq![Ok::<ChunkData, AiffError>(y), Ok(c)] + rest;
        assert(front =~= none + seq![Ok::<ChunkData, AiffError>(c), Ok(y)] + rest);
        assert(swapped.drop_first() =~= next);
        assert(swapped[0] == list[0]);
        assert(moved[0] == list[0]);
        assert(moved.drop_first() =~= rest.insert(j - 1, Ok(c)));
        assert(added(form_type, p, y) is Ok);
        assert forall|i: int| 0 <= i < j - 1 implies !#[trigger] is_of(
            rest,
            i,
            class_of(c.id)->Some_0,
        ) by {
            assert(is_of(list, i + 1, class_of(c.id)->Some_0) == is_of(
                rest,
                i,
                class_of(c.id)->Some_0,
            ));
        }
        assert(all_whole(rest)) by {
            assert forall|i: int| 0 <= i < rest.len() implies (#[trigger] rest[i]) is Ok by {
                assert(rest[i] == list[i + 1]);
            }
        }
        lemma_moved_back(form_type, added(form_type, p, y)->Ok_0, c, rest, j - 1);
    }
}

/// Chunks of no known class change nothing.
proof fn lemma_only_unknown(
    form_type: [u8; 4],
    p: Contents,
    list: Seq<Result<ChunkData, AiffError>>,
)
    requires
        all_whole(list),
        forall|class: ChunkClass| #[trigger] chunks_in(list, class).len() == 0,
    ensures
        gathered(form_type, p, list) == Ok::<Contents, AiffError>(p),
    decreases list.len(),
{
    if list.len() > 0 {
        let rest = list.drop_first();
        assert(list[0] is Ok);
        let c = list[0]->Ok_0;
        if let Some(class) = class_of(c.id) {
            assert(is_of(list, 0, class));
            assert(chunks_in(list, class).len() > 0);
        }
        assert forall|class: ChunkClass| #[trigger] chunks_in(rest, class).len() == 0 by {
            assert(chunks_in(list, class).len() == 0);
        }
        assert(all_whole(rest)) by {
            assert forall|i: int| 0 <= i < rest.len() implies (#[trigger] rest[i]) is Ok by {
                assert(rest[i] == list[i + 1]);
            }
        }
        lemma_only_unknown(form_type, p, rest);
    }
}

/// The order of chunks of different classes does not matter, nor do chunks of no known class:
/// where one of two lists of the same chunks can be read, the other says the same.
pub proof fn law_chunks_in_any_order(
    form_type: [u8; 4],
    p: Contents,
    a: Seq<Result<ChunkData, AiffError>>,
    b: Seq<Result<ChunkData, AiffError>>,
)
    requires
        same_chunks(a, b),
        all_whole(b),
        gathered(form_type, p, a) is Ok,
    ensures
        gathered(form_type, p, b) == gathered(form_type, p, a),
    decreases a.len(),
{
    if a.len() == 0 {
        assert forall|class: ChunkClass| #[trigger] chunks_in(b, class).len() == 0 by {
            assert(chunks_in(a, class) == chunks_in(b, class));
        }
        lemma_only_unknown(form_type, p, b);
    } else {
        let c = a[0]->Ok_0;
        let rest = a.drop_first();
        let q = added(form_type, p, c)->Ok_0;
        match class_of(c.id) {
            None => {
                assert forall|class: ChunkClass| #[trigger]
                    chunks_in(rest, class) == chunks_in(b, class) by {
                    assert(!is_of(a, 0, class));
                    assert(chunks_in(a, class) =~= chunks_in(rest, class));
                    assert(chunks_in(a, class) == chunks_in(b, class));
                }
                law_chunks_in_any_order(form_type, p, rest, b);
            },
            Some(class) => {
                assert(is_of(a, 0, class));
                assert(chunks_in(a, class)[0] == c);
                assert(chunks_in(a, class) == chunks_in(b, class));
                let j = lemma_first_of(b, class);
                let less = b.remove(j);
                assert forall|other: ChunkClass| #[trigger]
                    chunks_in(rest, other) == chunks_in(less, other) by {
                    lemma_taken_out(b, class, j, other);
                    assert(chunks_in(a, other) == chunks_in(b, other));
                    if other == class {
                        assert(chunks_in(rest, other) =~= chunks_in(a, other).drop_first());
                    } else {
                        assert(!is_of(a, 0, other));
                        assert(chunks_in(a, other) =~= chunks_in(rest, other));
                    }
                }
                assert(all_whole(less)) by {
                    assert forall|i: int| 0 <= i < less.len() implies (#[trigger] less[i]) is Ok by {
                        assert(less[i] == if i < j {
                            b[i]
                        } else {
                            b[i + 1]
                        });
                    }
                }
                law_chunks_in_any_order(form_type, q, rest, less);
                let front = seq![Ok::<ChunkData, AiffError>(c)] + less;
                assert(front.drop_first() =~= less);
                assert(front[0] == Ok::<ChunkData, AiffError>(c));
                assert(gathered(form_type, p, front) == gathered(form_type, q, less));
                assert forall|i: int| 0 <= i < j implies !#[trigger] is_of(less, i, class) by {
                    assert(is_of(less, i, class) == is_of(b, i, class));
                }
                lemma_moved_back(form_type, p, c, less, j);
                assert(less.insert(j, Ok(c)) =~= b);
            },
        }
    }
}

/// The chunks of a file can appear in any order, and chunks of no known class among them: a
/// file with the same chunks as one that can be read says the same.
pub proof fn law_file_in_any_order(a: Seq<u8>, b: Seq<u8>)
    requires
        form_read(a) is Ok,
        b.len() >= 12,
        id_at(b, 0) == GROUP_FORM,
        id_at(b, 8) == id_at(a, 8),
        all_whole(chunk_list(inner(b))),
        same_chunks(chunk_list(inner(a)), chunk_list(inner(b))),
    ensures
        form_read(b) == form_read(a),
{
    law_chunks_in_any_order(
        id_at(a, 8),
        no_contents(),
        chunk_list(inner(a)),
        chunk_list(inner(b)),
    );
}

/// The bodies of the chunks of a class, in the order of the list.
pub open spec fn bodies_of(list: Seq<Result<ChunkData, AiffError>>, class: ChunkClass) -> Seq<
    Seq<u8>,
>
    decreases list.len(),
{
    if list.len() == 0 {
        Seq::empty()
    } else {
        (if is_of(list, 0, class) {
            seq![(list[0]->Ok_0).body]
        } else {
            Seq::empty()
        }) + bodies_of(list.drop_first(), class)
    }
}

/// What application chunks say, where they can be read.
pub open spec fn applications_in(bodies: Seq<Seq<u8>>) -> Seq<Application> {
    bodies.map_values(|b: Seq<u8>| application_read(b)->Ok_0)
}

/// What sound accelerator chunks say, where they can be read.
pub open spec fn saxels_in(bodies: Seq<Seq<u8>>) -> Seq<Seq<SaxelData>> {
    bodies.map_values(|b: Seq<u8>| saxel_chunk(b)->Ok_0)
}

/// Annotations with the given bytes.
pub open spec fn annotations_in(bodies: Seq<Seq<u8>>) -> Seq<TextData> {
    bodies.map_values(|b: Seq<u8>| TextData { kind: TextKind::Annotation, text: b })
}

/// Of the chunks that may occur more than once, all are kept, in the order of the file.
pub proof fn law_repeated_chunks_in_order(
    form_type: [u8; 4],
    p: Contents,
    list: Seq<Result<ChunkData, AiffError>>,
)
    ensures
        gathered(form_type, p, list) matches Ok(q) ==> {
            &&& q.midi == p.midi + bodies_of(list, ChunkClass::MidiData)
            &&& q.annotations == p.annotations + annotations_in(
                bodies_of(list, ChunkClass::Annotation),
            )
            &&& q.applications == p.applications + applications_in(
                bodies_of(list, ChunkClass::ApplicationSpecific),
            )
            &&& q.saxels == p.saxels + saxels_in(bodies_of(list, ChunkClass::Saxel))
        },
    decreases list.len(),
{
    let midi = bodies_of(list, ChunkClass::MidiData);
    let notes = bodies_of(list, ChunkClass::Annotation);
    let apps = bodies_of(list, ChunkClass::ApplicationSpecific);
    let saxels = bodies_of(list, ChunkClass::Saxel);
    if list.len() == 0 {
        assert(p.midi + midi =~= p.midi);
        assert(p.annotations + annotations_in(notes) =~= p.annotations);
        assert(p.applications + applications_in(apps) =~= p.applications);
        assert(p.saxels + saxels_in(saxels) =~= p.saxels);
    } else {
        match list[0] {
            Ok(c) => match added(form_type, p, c) {
                Ok(q) => {
                    let rest = list.drop_first();
                    law_repeated_chunks_in_order(form_type, q, rest);
                    assert(p.midi + midi =~= q.midi + bodies_of(rest, ChunkClass::MidiData));
                    assert(p.annotations + annotations_in(notes) =~= q.annotations
                        + annotations_in(bodies_of(rest, ChunkClass::Annotation)));
                    assert(p.applications + applications_in(apps) =~= q.applications
                        + applications_in(bodies_of(rest, ChunkClass::ApplicationSpecific)));
                    assert(p.saxels + saxels_in(saxels) =~= q.saxels + saxels_in(
                        bodies_of(rest, ChunkClass::Saxel),
                    ));
                },
                Err(_) => {},
            },
            Err(_) => {},
        }
    }
}

/// The chunks of a list, one behind the other.
pub open spec fn framed_chunks(list: Seq<ChunkData>, i: int) -> Seq<u8>
    decreases list.len() - i,
{
    if 0 <= i < list.len() {
        framed(list[i].id, list[i].body) + framed_chunks(list, i + 1)
    } else {
        Seq::empty()
    }
}

/// The results of reading the chunks from `i` on.
pub open spec fn read_from(list: Seq<ChunkData>, i: int) -> Seq<Result<ChunkData, AiffError>> {
    Seq::new(
        (list.len() - i) as nat,
        |k: int| Ok::<ChunkData, AiffError>(list[i + k]),
    )
}

#[verifier::spinoff_prover]
#[verifier::rlimit(40)]
proof fn lemma_framed_chunks(list: Seq<ChunkData>, i: int)
    requires
        0 <= i <= list.len(),
        forall|k: int| 0 <= k < list.len() ==> (#[trigger] list[k]).body.len() == list[k].size,
    ensures
        chunk_list(framed_chunks(list, i)) == read_from(list, i),
    decreases list.len() - i,
{
    if i < list.len() {
        lemma_framed_chunks(list, i + 1);
        law_frame_chunk_read_back(list[i].id, list[i].body, framed_chunks(list, i + 1));
        assert(chunk_list(framed_chunks(list, i)) =~= read_from(list, i));
    } else {
        assert(read_from(list, i) =~= Seq::empty());
    }
}

/// A file that is put together of framed chunks is read chunk by chunk.
pub proof fn law_assembled_file(form_type: [u8; 4], list: Seq<ChunkData>)
    requires
        form_type == FORM_AIFF || form_type == FORM_AIFC,
        forall|k: int| 0 <= k < list.len() ==> (#[trigger] list[k]).body.len() == list[k].size,
        4 + framed_chunks(list, 0).len() <= u32::MAX,
    ensures
        form_read(group_bytes(GROUP_FORM, form_type, framed_chunks(list, 0))) == match gathered(
            form_type,
            no_contents(),
            read_from(list, 0),
        ) {
            Ok(p) => finished(form_type, p),
            Err(e) => Err(e),
        },
{
    let chunks = framed_chunks(list, 0);
    let d = group_bytes(GROUP_FORM, form_type, chunks);
    lemma_group(GROUP_FORM, form_type, chunks);
    assert(inner(d) =~= chunks);
    lemma_framed_chunks(list, 0);
}

} // verus!
