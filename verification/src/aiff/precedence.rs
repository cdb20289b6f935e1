//! Which chunk is believed where two disagree.

use vstd::prelude::*;
use crate::aiff::form::{class_of, Contents, Form};
use crate::aiff::text::{ANNOTATION_ID, AUTHOR_ID, COPYRIGHT_ID, NAME_ID};

verus! {

/// `FVER`.
pub const VERSION_ID: [u8; 4] = [0x46, 0x56, 0x45, 0x52];

/// `COMM`.
pub const COMMON_ID: [u8; 4] = [0x43, 0x4F, 0x4D, 0x4D];

/// `INST`.
pub const INSTRUMENT_ID: [u8; 4] = [0x49, 0x4E, 0x53, 0x54];

/// `SAXL`.
pub const SAXEL_ID: [u8; 4] = [0x53, 0x41, 0x58, 0x4C];

/// `COMT`.
pub const COMMENTS_ID: [u8; 4] = [0x43, 0x4F, 0x4D, 0x54];

/// `MARK`.
pub const MARKER_ID: [u8; 4] = [0x4D, 0x41, 0x52, 0x4B];

/// `SSND`.
pub const SOUND_ID: [u8; 4] = [0x53, 0x53, 0x4E, 0x44];

/// `AESD`.
pub const RECORDING_ID: [u8; 4] = [0x41, 0x45, 0x53, 0x44];

/// `MIDI`.
pub const MIDI_ID: [u8; 4] = [0x4D, 0x49, 0x44, 0x49];

/// `APPL`.
pub const APPLICATION_ID: [u8; 4] = [0x41, 0x50, 0x50, 0x4C];

/// A class of chunks. One that is listed earlier is believed before those that follow it.
#[derive(Clone, Copy, Debug, PartialEq, Eq, PartialOrd, Ord, Hash, Structural)]
pub enum ChunkClass {
    /// The version of the format.
    FormatVersion,
    /// The common chunk.
    Common,
    /// The instrument chunk.
    Instrument,
    /// Sound accelerator chunks.
    Saxel,
    /// The comments chunk.
    Comments,
    /// The marker chunk.
    Marker,
    /// The sound data chunk.
    SoundData,
    /// The name.
    Name,
    /// The author.
    Author,
    /// The copyright.
    Copyright,
    /// Annotations.
    Annotation,
    /// The audio recording chunk.
    AudioRecording,
    /// MIDI data chunks.
    MidiData,
    /// Application chunks.
    ApplicationSpecific,
}

/// The classes in the order in which they are believed.
pub const PRECEDENCE: [ChunkClass; 14] = [
    ChunkClass::FormatVersion,
    ChunkClass::Common,
    ChunkClass::Instrument,
    ChunkClass::Saxel,
    ChunkClass::Comments,
    ChunkClass::Marker,
    ChunkClass::SoundData,
    ChunkClass::Name,
    ChunkClass::Author,
    ChunkClass::Copyright,
    ChunkClass::Annotation,
    ChunkClass::AudioRecording,
    ChunkClass::MidiData,
    ChunkClass::ApplicationSpecific,
];

impl ChunkClass {
    /// Place of the class in the order, from zero.
    #[verifier::allow_in_spec]
    pub fn rank(self) -> u8
        returns
            (match self {
                ChunkClass::FormatVersion => 0u8,
                ChunkClass::Common => 1u8,
                ChunkClass::Instrument => 2u8,
                ChunkClass::Saxel => 3u8,
                ChunkClass::Comments => 4u8,
                ChunkClass::Marker => 5u8,
                ChunkClass::SoundData => 6u8,
                ChunkClass::Name => 7u8,
                ChunkClass::Author => 8u8,
                ChunkClass::Copyright => 9u8,
                ChunkClass::Annotation => 10u8,
                ChunkClass::AudioRecording => 11u8,
                ChunkClass::MidiData => 12u8,
                ChunkClass::ApplicationSpecific => 13u8,
            }),
    {
        match self {
            ChunkClass::FormatVersion => 0,
            ChunkClass::Common => 1,
            ChunkClass::Instrument => 2,
            ChunkClass::Saxel => 3,
            ChunkClass::Comments => 4,
            ChunkClass::Marker => 5,
            ChunkClass::SoundData => 6,
            ChunkClass::Name => 7,
            ChunkClass::Author => 8,
            ChunkClass::Copyright => 9,
            ChunkClass::Annotation => 10,
            ChunkClass::AudioRecording => 11,
            ChunkClass::MidiData => 12,
            ChunkClass::ApplicationSpecific => 13,
        }
    }

    /// Id of the chunks of the class.
    pub open spec fn id(self) -> [u8; 4] {
        match self {
            ChunkClass::FormatVersion => VERSION_ID,
            ChunkClass::Common => COMMON_ID,
            ChunkClass::Instrument => INSTRUMENT_ID,
            ChunkClass::Saxel => SAXEL_ID,
            ChunkClass::Comments => COMMENTS_ID,
            ChunkClass::Marker => MARKER_ID,
            ChunkClass::SoundData => SOUND_ID,
            ChunkClass::Name => NAME_ID,
            ChunkClass::Author => AUTHOR_ID,
            ChunkClass::Copyright => COPYRIGHT_ID,
            ChunkClass::Annotation => ANNOTATION_ID,
            ChunkClass::AudioRecording => RECORDING_ID,
            ChunkClass::MidiData => MIDI_ID,
            ChunkClass::ApplicationSpecific => APPLICATION_ID,
        }
    }

    /// Id of the chunks of the class.
    pub fn ck_id(self) -> (r: &'static [u8; 4])
        ensures
            *r == self.id(),
    {
        match self {
            ChunkClass::FormatVersion => &VERSION_ID,
            ChunkClass::Common => &COMMON_ID,
            ChunkClass::Instrument => &INSTRUMENT_ID,
            ChunkClass::Saxel => &SAXEL_ID,
            ChunkClass::Comments => &COMMENTS_ID,
            ChunkClass::Marker => &MARKER_ID,
            ChunkClass::SoundData => &SOUND_ID,
            ChunkClass::Name => &NAME_ID,
            ChunkClass::Author => &AUTHOR_ID,
            ChunkClass::Copyright => &COPYRIGHT_ID,
            ChunkClass::Annotation => &ANNOTATION_ID,
            ChunkClass::AudioRecording => &RECORDING_ID,
            ChunkClass::MidiData => &MIDI_ID,
            ChunkClass::ApplicationSpecific => &APPLICATION_ID,
        }
    }

    /// Whether chunks of this class are believed before those of another.
    pub fn higher_precedence_than(self, other: ChunkClass) -> (r: bool)
        ensures
            r == (self.rank() < other.rank()),
    {
        self.rank() < other.rank()
    }

    /// All classes, in the order in which they are believed.
    pub fn all_in_precedence_order() -> (r: &'static [ChunkClass])
        ensures
            r@ == PRECEDENCE@,
    {
        &PRECEDENCE
    }
}

/// `n` chunks of a class.
pub open spec fn repeated(class: ChunkClass, n: nat) -> Seq<ChunkClass> {
    Seq::new(n, |i: int| class)
}

/// One chunk of a class, or none.
pub open spec fn where_present(class: ChunkClass, present: bool) -> Seq<ChunkClass> {
    if present {
        seq![class]
    } else {
        Seq::empty()
    }
}

/// How many chunks of a class a file has.
pub open spec fn chunks_of(p: Contents, class: ChunkClass) -> nat {
    match class {
        ChunkClass::FormatVersion => where_present(class, p.fver_timestamp is Some).len(),
        ChunkClass::Common => where_present(class, p.common is Some).len(),
        ChunkClass::Instrument => where_present(class, p.instrument is Some).len(),
        ChunkClass::Saxel => p.saxels.len(),
        ChunkClass::Comments => where_present(class, p.comments is Some).len(),
        ChunkClass::Marker => where_present(class, p.markers is Some).len(),
        ChunkClass::SoundData => where_present(class, p.sound is Some).len(),
        ChunkClass::Name => where_present(class, p.name is Some).len(),
        ChunkClass::Author => where_present(class, p.author is Some).len(),
        ChunkClass::Copyright => where_present(class, p.copyright is Some).len(),
        ChunkClass::Annotation => p.annotations.len(),
        ChunkClass::AudioRecording => where_present(class, p.aesd is Some).len(),
        ChunkClass::MidiData => p.midi.len(),
        ChunkClass::ApplicationSpecific => p.applications.len(),
    }
}

/// The classes of the chunks of a file from the class at `i` in the order on.
pub open spec fn classes_from(p: Contents, i: int) -> Seq<ChunkClass>
    decreases 14 - i,
{
    if 0 <= i < 14 {
        repeated(PRECEDENCE[i], chunks_of(p, PRECEDENCE[i])) + classes_from(p, i + 1)
    } else {
        Seq::empty()
    }
}

impl<'a> Form<'a> {
    fn count(&self, class: ChunkClass) -> (n: usize)
        ensures
            n == chunks_of(self@.contents, class),
    {
        match class {
            ChunkClass::FormatVersion => if self.fver_timestamp.is_some() {
                1
            } else {
                0
            },
            ChunkClass::Common => 1,
            ChunkClass::Instrument => if self.instrument.is_some() {
                1
            } else {
                0
            },
            ChunkClass::Saxel => self.saxels.len(),
            ChunkClass::Comments => if self.comments.is_some() {
                1
            } else {
                0
            },
            ChunkClass::Marker => if self.markers.is_some() {
                1
            } else {
                0
            },
            ChunkClass::SoundData => if self.sound.is_some() {
                1
            } else {
                0
            },
            ChunkClass::Name => if self.name.is_some() {
                1
            } else {
                0
            },
            ChunkClass::Author => if self.author.is_some() {
                1
            } else {
                0
            },
            ChunkClass::Copyright => if self.copyright.is_some() {
                1
            } else {
                0
            },
            ChunkClass::Annotation => self.annotations.len(),
            ChunkClass::AudioRecording => if self.aesd.is_some() {
                1
            } else {
                0
            },
            ChunkClass::MidiData => self.midi.len(),
            ChunkClass::ApplicationSpecific => self.applications.len(),
        }
    }

    /// The classes of the chunks, those first that are believed first. A class is listed once
    /// for each chunk of it.
    pub fn precedence_order(&self) -> (out: Vec<ChunkClass>)
        ensures
            out@ == classes_from(self@.contents, 0),
    {
        let ghost p = self@.contents;
        let mut out: Vec<ChunkClass> = Vec::new();
        let mut i: usize = 0;
        assert(out@ + classes_from(p, 0) =~= classes_from(p, 0));
        while i < 14
            invariant
                i <= 14,
                p == self@.contents,
                out@ + classes_from(p, i as int) == classes_from(p, 0),
            decreases 14 - i,
        {
            let class: ChunkClass = PRECEDENCE[i];
            let n: usize = self.count(class);
            let ghost before = out@;
            let mut k: usize = 0;
            while k < n
                invariant
                    k <= n,
                    out@ == before + repeated(class, k as nat),
                decreases n - k,
            {
                out.push(class);
                k += 1;
                assert(out@ =~= before + repeated(class, k as nat));
            }
            assert(out@ + classes_from(p, i + 1) =~= before + classes_from(p, i as int));
            i += 1;
        }
        assert(out@ =~= classes_from(p, 0));
        out
    }

    /// The class that is believed first.
    pub fn highest_precedence_class(&self) -> (r: Option<ChunkClass>)
        ensures
            r == Some(
                if self.fver_timestamp is Some {
                    ChunkClass::FormatVersion
                } else {
                    ChunkClass::Common
                },
            ),
    {
        let all: Vec<ChunkClass> = self.precedence_order();
        let ghost p = self@.contents;
        assert(PRECEDENCE[0] == ChunkClass::FormatVersion);
        assert(PRECEDENCE[1] == ChunkClass::Common);
        assert(all@ == repeated(PRECEDENCE[0], chunks_of(p, PRECEDENCE[0])) + classes_from(p, 1));
        assert(classes_from(p, 1) == repeated(PRECEDENCE[1], 1) + classes_from(p, 2));
        if all.len() == 0 {
            None
        } else {
            Some(all[0])
        }
    }
}

/// The order of the classes is that of their ranks: each class has the rank that is its place.
pub proof fn law_ranks(i: int)
    requires
        0 <= i < 14,
    ensures
        PRECEDENCE[i].rank() == i,
{
}

/// Ids and classes stand for each other.
pub proof fn law_class_round_trip(class: ChunkClass, id: [u8; 4])
    ensures
        class_of(class.id()) == Some(class),
        class_of(id) matches Some(c) ==> c.id() == id,
{
}

/// The common chunk is believed before all but the version, and application chunks are
/// believed last.
pub proof fn law_common_first_application_last(class: ChunkClass)
    ensures
        class != ChunkClass::Common && class != ChunkClass::FormatVersion
            ==> ChunkClass::Common.rank() < class.rank(),
        class != ChunkClass::ApplicationSpecific ==> class.rank()
            < ChunkClass::ApplicationSpecific.rank(),
{
}

proof fn lemma_classes_sorted(p: Contents, i: int)
    requires
        0 <= i,
    ensures
        forall|a: int|
            0 <= a < classes_from(p, i).len() ==> (#[trigger] classes_from(p, i)[a]).rank() >= i,
        forall|a: int, b: int|
            0 <= a <= b < classes_from(p, i).len() ==> (#[trigger] classes_from(p, i)[a]).rank()
                <= (#[trigger] classes_from(p, i)[b]).rank(),
    decreases 14 - i,
{
    if i < 14 {
        law_ranks(i);
        lemma_classes_sorted(p, i + 1);
        let all = classes_from(p, i);
        let n = chunks_of(p, PRECEDENCE[i]) as int;
        let tail = classes_from(p, i + 1);
        assert forall|a: int| 0 <= a < all.len() implies (#[trigger] all[a]).rank() >= i && (a >= n
            ==> all[a] == tail[a - n]) && (a < n ==> all[a] == PRECEDENCE[i]) by {
            if a >= n {
                assert(tail[a - n].rank() >= i + 1);
            }
        }
    }
}

proof fn lemma_classes_counted(p: Contents, class: ChunkClass, i: int)
    requires
        0 <= i <= 14,
    ensures
        classes_from(p, i).filter(|c: ChunkClass| c == class).len() == if class.rank() >= i {
            chunks_of(p, class)
        } else {
            0
        },
    decreases 14 - i,
{
    let f = |c: ChunkClass| c == class;
    if i < 14 {
        law_ranks(i);
        let head = repeated(PRECEDENCE[i], chunks_of(p, PRECEDENCE[i]));
        let tail = classes_from(p, i + 1);
        lemma_classes_counted(p, class, i + 1);
        Seq::filter_distributes_over_add(head, tail, f);
        lemma_filter_repeated(PRECEDENCE[i], chunks_of(p, PRECEDENCE[i]), class);
    } else {
        reveal(Seq::filter);
    }
}

proof fn lemma_filter_repeated(class: ChunkClass, n: nat, other: ChunkClass)
    ensures
        repeated(class, n).filter(|c: ChunkClass| c == other).len() == if class == other {
            n
        } else {
            0
        },
    decreases n,
{
    reveal(Seq::filter);
    if n > 0 {
        assert(repeated(class, n).drop_last() =~= repeated(class, (n - 1) as nat));
        lemma_filter_repeated(class, (n - 1) as nat, other);
    }
}

/// The classes of a file are listed by rank, each as often as the file has chunks of it.
pub proof fn law_precedence_order(p: Contents, class: ChunkClass)
    ensures
        forall|a: int, b: int|
            0 <= a <= b < classes_from(p, 0).len() ==> (#[trigger] classes_from(p, 0)[a]).rank()
                <= (#[trigger] classes_from(p, 0)[b]).rank(),
        classes_from(p, 0).filter(|c: ChunkClass| c == class).len() == chunks_of(p, class),
{
    lemma_classes_sorted(p, 0);
    lemma_classes_counted(p, class, 0);
}

} // verus!
