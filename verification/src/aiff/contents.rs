//! What a file says, chunk by chunk.

use vstd::prelude::*;
use crate::aiff::aesd::aesd_read;
use crate::aiff::chunk::ChunkData;
use crate::aiff::comment::comments_chunk;
use crate::aiff::common::common_read;
use crate::aiff::error::AiffError;
use crate::aiff::form::{added, class_of, gathered, is_of, sound_read, version_read, Contents};
use crate::aiff::instrument::instrument_read;
use crate::aiff::marker::marker_chunk;
use crate::aiff::precedence::{
    ChunkClass, APPLICATION_ID, COMMENTS_ID, COMMON_ID, INSTRUMENT_ID, MARKER_ID, MIDI_ID,
    RECORDING_ID, SAXEL_ID, SOUND_ID, VERSION_ID,
};
use crate::aiff::text::{
    TextData, TextKind, ANNOTATION_ID, AUTHOR_ID, COPYRIGHT_ID, NAME_ID,
};

verus! {

/// Whether two files say the same in chunks of a class that are not kept in a list.
pub open spec fn agree_on(p: Contents, q: Contents, class: ChunkClass) -> bool {
    match class {
        ChunkClass::Common => p.common == q.common,
        ChunkClass::SoundData => p.sound == q.sound,
        ChunkClass::FormatVersion => p.fver_timestamp == q.fver_timestamp,
        ChunkClass::Marker => p.markers == q.markers,
        ChunkClass::Instrument => p.instrument == q.instrument,
        ChunkClass::Comments => p.comments == q.comments,
        ChunkClass::AudioRecording => p.aesd == q.aesd,
        ChunkClass::Name => p.name == q.name,
        ChunkClass::Author => p.author == q.author,
        ChunkClass::Copyright => p.copyright == q.copyright,
        _ => true,
    }
}

/// Whether a file says what the chunk `c` of a class says.
pub open spec fn says(form_type: [u8; 4], q: Contents, class: ChunkClass, c: ChunkData) -> bool {
    match class {
        ChunkClass::Common => common_read(c.body, form_type) matches Ok(x) && q.common == Some(x),
        ChunkClass::SoundData => sound_read(c.body, c.size) matches Ok(x) && q.sound == Some(x),
        ChunkClass::FormatVersion => version_read(c.body) matches Ok(x) && q.fver_timestamp
            == Some(x),
        ChunkClass::Marker => marker_chunk(c.body) matches Ok(x) && q.markers == Some(x),
        ChunkClass::Instrument => instrument_read(c.body) matches Ok(x) && q.instrument == Some(x),
        ChunkClass::Comments => comments_chunk(c.body) matches Ok(x) && q.comments == Some(x),
        ChunkClass::AudioRecording => aesd_read(c.body) matches Ok(x) && q.aesd == Some(x),
        ChunkClass::Name => q.name == Some(TextData { kind: TextKind::Name, text: c.body }),
        ChunkClass::Author => q.author == Some(TextData { kind: TextKind::Author, text: c.body }),
        ChunkClass::Copyright => q.copyright == Some(
            TextData { kind: TextKind::Copyright, text: c.body },
        ),
        _ => true,
    }
}

proof fn lemma_unsaid(
    form_type: [u8; 4],
    p: Contents,
    list: Seq<Result<ChunkData, AiffError>>,
    class: ChunkClass,
)
    requires
        gathered(form_type, p, list) is Ok,
        forall|j: int| 0 <= j < list.len() ==> !#[trigger] is_of(list, j, class),
    ensures
        agree_on(p, gathered(form_type, p, list)->Ok_0, class),
    decreases list.len(),
{
    if list.len() > 0 {
        let rest = list.drop_first();
        let q = added(form_type, p, list[0]->Ok_0)->Ok_0;
        assert(!is_of(list, 0, class));
        assert forall|j: int| 0 <= j < rest.len() implies !#[trigger] is_of(rest, j, class) by {
            assert(is_of(rest, j, class) == is_of(list, j + 1, class));
        }
        lemma_unsaid(form_type, q, rest, class);
    }
}

/// A file says what the last chunk of a class says, for all classes but those whose chunks are
/// kept in a list.
pub proof fn law_last_chunk_counts(
    form_type: [u8; 4],
    p: Contents,
    list: Seq<Result<ChunkData, AiffError>>,
    class: ChunkClass,
    i: int,
)
    requires
        gathered(form_type, p, list) is Ok,
        0 <= i < list.len(),
        is_of(list, i, class),
        forall|j: int| i < j < list.len() ==> !#[trigger] is_of(list, j, class),
    ensures
        says(form_type, gathered(form_type, p, list)->Ok_0, class, list[i]->Ok_0),
    decreases list.len(),
{
    let rest = list.drop_first();
    let q = added(form_type, p, list[0]->Ok_0)->Ok_0;
    if i == 0 {
        assert forall|j: int| 0 <= j < rest.len() implies !#[trigger] is_of(rest, j, class) by {
            assert(is_of(rest, j, class) == is_of(list, j + 1, class));
        }
        assert(says(form_type, q, class, list[0]->Ok_0));
        lemma_unsaid(form_type, q, rest, class);
    } else {
        assert(is_of(rest, i - 1, class) == is_of(list, i, class));
        assert forall|j: int| i - 1 < j < rest.len() implies !#[trigger] is_of(rest, j, class) by {
            assert(is_of(rest, j, class) == is_of(list, j + 1, class));
        }
        law_last_chunk_counts(form_type, q, rest, class, i - 1);
    }
}

/// Where there is no chunk of a class, nothing is said.
pub proof fn law_no_chunk_no_word(
    form_type: [u8; 4],
    p: Contents,
    list: Seq<Result<ChunkData, AiffError>>,
    class: ChunkClass,
)
    requires
        gathered(form_type, p, list) is Ok,
        forall|j: int| 0 <= j < list.len() ==> !#[trigger] is_of(list, j, class),
    ensures
        agree_on(p, gathered(form_type, p, list)->Ok_0, class),
{
    lemma_unsaid(form_type, p, list, class);
}

/// The ids of the classes: their four letters.
pub proof fn law_class_ids(id: [u8; 4])
    ensures
        class_of(id) == Some(ChunkClass::Common) <==> id[0] == 0x43 && id[1] == 0x4F
            && id[2] == 0x4D && id[3] == 0x4D,
        class_of(id) == Some(ChunkClass::SoundData) <==> id[0] == 0x53 && id[1] == 0x53
            && id[2] == 0x4E && id[3] == 0x44,
        class_of(id) == Some(ChunkClass::FormatVersion) <==> id[0] == 0x46 && id[1] == 0x56
            && id[2] == 0x45 && id[3] == 0x52,
        class_of(id) == Some(ChunkClass::Marker) <==> id[0] == 0x4D && id[1] == 0x41
            && id[2] == 0x52 && id[3] == 0x4B,
        class_of(id) == Some(ChunkClass::Instrument) <==> id[0] == 0x49 && id[1] == 0x4E
            && id[2] == 0x53 && id[3] == 0x54,
        class_of(id) == Some(ChunkClass::Comments) <==> id[0] == 0x43 && id[1] == 0x4F
            && id[2] == 0x4D && id[3] == 0x54,
        class_of(id) == Some(ChunkClass::AudioRecording) <==> id[0] == 0x41 && id[1] == 0x45
            && id[2] == 0x53 && id[3] == 0x44,
        class_of(id) == Some(ChunkClass::ApplicationSpecific) <==> id[0] == 0x41 && id[1] == 0x50
            && id[2] == 0x50 && id[3] == 0x4C,
        class_of(id) == Some(ChunkClass::MidiData) <==> id[0] == 0x4D && id[1] == 0x49
            && id[2] == 0x44 && id[3] == 0x49,
        class_of(id) == Some(ChunkClass::Saxel) <==> id[0] == 0x53 && id[1] == 0x41
            && id[2] == 0x58 && id[3] == 0x4C,
        class_of(id) == Some(ChunkClass::Name) <==> id[0] == 0x4E && id[1] == 0x41
            && id[2] == 0x4D && id[3] == 0x45,
        class_of(id) == Some(ChunkClass::Author) <==> id[0] == 0x41 && id[1] == 0x55
            && id[2] == 0x54 && id[3] == 0x48,
        class_of(id) == Some(ChunkClass::Copyright) <==> id[0] == 0x28 && id[1] == 0x63
            && id[2] == 0x29 && id[3] == 0x20,
        class_of(id) == Some(ChunkClass::Annotation) <==> id[0] == 0x41 && id[1] == 0x4E
            && id[2] == 0x4E && id[3] == 0x4F,
{
    assert(id[0] == 0x43 && id[1] == 0x4F && id[2] == 0x4D && id[3] == 0x4D ==> id =~= COMMON_ID);
    assert(id[0] == 0x53 && id[1] == 0x53 && id[2] == 0x4E && id[3] == 0x44 ==> id =~= SOUND_ID);
    assert(id[0] == 0x46 && id[1] == 0x56 && id[2] == 0x45 && id[3] == 0x52 ==> id =~= VERSION_ID);
    assert(id[0] == 0x4D && id[1] == 0x41 && id[2] == 0x52 && id[3] == 0x4B ==> id =~= MARKER_ID);
    assert(id[0] == 0x49 && id[1] == 0x4E && id[2] == 0x53 && id[3] == 0x54 ==> id
        =~= INSTRUMENT_ID);
    assert(id[0] == 0x43 && id[1] == 0x4F && id[2] == 0x4D && id[3] == 0x54 ==> id =~= COMMENTS_ID);
    assert(id[0] == 0x41 && id[1] == 0x45 && id[2] == 0x53 && id[3] == 0x44 ==> id
        =~= RECORDING_ID);
    assert(id[0] == 0x41 && id[1] == 0x50 && id[2] == 0x50 && id[3] == 0x4C ==> id
        =~= APPLICATION_ID);
    assert(id[0] == 0x4D && id[1] == 0x49 && id[2] == 0x44 && id[3] == 0x49 ==> id =~= MIDI_ID);
    assert(id[0] == 0x53 && id[1] == 0x41 && id[2] == 0x58 && id[3] == 0x4C ==> id =~= SAXEL_ID);
    assert(id[0] == 0x4E && id[1] == 0x41 && id[2] == 0x4D && id[3] == 0x45 ==> id =~= NAME_ID);
    assert(id[0] == 0x41 && id[1] == 0x55 && id[2] == 0x54 && id[3] == 0x48 ==> id =~= AUTHOR_ID);
    assert(id[0] == 0x28 && id[1] == 0x63 && id[2] == 0x29 && id[3] == 0x20 ==> id
        =~= COPYRIGHT_ID);
    assert(id[0] == 0x41 && id[1] == 0x4E && id[2] == 0x4E && id[3] == 0x4F ==> id
        =~= ANNOTATION_ID);
}

/// A file that cannot be read is refused for the first chunk that is at fault: one that is not
/// whole, or one that cannot be added to those before it.
pub proof fn law_first_fault(
    form_type: [u8; 4],
    p: Contents,
    list: Seq<Result<ChunkData, AiffError>>,
    i: int,
)
    requires
        0 <= i < list.len(),
        gathered(form_type, p, list.take(i)) is Ok,
    ensures
        list[i] matches Err(e) ==> gathered(form_type, p, list) == Err::<Contents, AiffError>(e),
        list[i] matches Ok(c) ==> (added(
            form_type,
            gathered(form_type, p, list.take(i))->Ok_0,
            c,
        ) matches Err(e) ==> gathered(form_type, p, list) == Err::<Contents, AiffError>(e)),
    decreases list.len(),
{
    let front = list.take(i);
    if i > 0 {
        let rest = list.drop_first();
        assert(front[0] == list[0]);
        assert(front.drop_first() =~= rest.take(i - 1));
        assert(rest[i - 1] == list[i]);
        law_first_fault(form_type, added(form_type, p, list[0]->Ok_0)->Ok_0, rest, i - 1);
    }
}

} // verus!
