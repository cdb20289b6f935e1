//! The text chunks: name, author, copyright and annotations.

use vstd::prelude::*;
use crate::aiff::error::AiffError;
use crate::bytes::{copy_range, same_id};
use crate::text::{decode_lossy, lossy_text, text_of};
use vstd::utf8::{decode_utf8, valid_utf8};

verus! {

/// `NAME`.
pub const NAME_ID: [u8; 4] = [0x4E, 0x41, 0x4D, 0x45];

/// `AUTH`.
pub const AUTHOR_ID: [u8; 4] = [0x41, 0x55, 0x54, 0x48];

/// `(c) `.
pub const COPYRIGHT_ID: [u8; 4] = [0x28, 0x63, 0x29, 0x20];

/// `ANNO`.
pub const ANNOTATION_ID: [u8; 4] = [0x41, 0x4E, 0x4E, 0x4F];

/// What a text says.
#[derive(Clone, Copy, Debug, PartialEq, Eq, Structural)]
pub enum TextKind {
    /// Name of the sound.
    Name,
    /// Who made the sound.
    Author,
    /// Who has the rights.
    Copyright,
    /// A remark.
    Annotation,
}

/// The kind of text that a chunk id stands for.
pub open spec fn text_kind(id: [u8; 4]) -> Option<TextKind> {
    if id == NAME_ID {
        Some(TextKind::Name)
    } else if id == AUTHOR_ID {
        Some(TextKind::Author)
    } else if id == COPYRIGHT_ID {
        Some(TextKind::Copyright)
    } else if id == ANNOTATION_ID {
        Some(TextKind::Annotation)
    } else {
        None
    }
}

impl TextKind {
    /// Id of the chunks of this kind.
    #[verifier::allow_in_spec]
    pub fn ck_id(self) -> [u8; 4]
        returns
            (match self {
                TextKind::Name => NAME_ID,
                TextKind::Author => AUTHOR_ID,
                TextKind::Copyright => COPYRIGHT_ID,
                TextKind::Annotation => ANNOTATION_ID,
            }),
    {
        match self {
            TextKind::Name => NAME_ID,
            TextKind::Author => AUTHOR_ID,
            TextKind::Copyright => COPYRIGHT_ID,
            TextKind::Annotation => ANNOTATION_ID,
        }
    }

    /// The kind that a chunk id stands for.
    pub fn from_ck_id(id: &[u8; 4]) -> (r: Option<Self>)
        ensures
            r == text_kind(*id),
    {
        if same_id(*id, NAME_ID) {
            Some(TextKind::Name)
        } else if same_id(*id, AUTHOR_ID) {
            Some(TextKind::Author)
        } else if same_id(*id, COPYRIGHT_ID) {
            Some(TextKind::Copyright)
        } else if same_id(*id, ANNOTATION_ID) {
            Some(TextKind::Annotation)
        } else {
            None
        }
    }
}

/// A text chunk.
#[derive(Clone, Debug, PartialEq, Eq)]
pub struct TextChunk {
    /// What the text says.
    pub kind: TextKind,
    /// The bytes of the text.
    pub text: Vec<u8>,
}

/// What a text chunk says.
#[verifier::ext_equal]
pub struct TextData {
    /// What the text says.
    pub kind: TextKind,
    /// The bytes of the text.
    pub text: Seq<u8>,
}

impl View for TextChunk {
    type V = TextData;

    open spec fn view(&self) -> TextData {
        TextData { kind: self.kind, text: self.text@ }
    }
}

impl TextChunk {
    /// Number of bytes.
    pub fn len(&self) -> (n: usize)
        ensures
            n == self@.text.len(),
    {
        self.text.len()
    }

    /// Whether the text is empty.
    pub fn is_empty(&self) -> (r: bool)
        ensures
            r == (self@.text.len() == 0),
    {
        self.text.len() == 0
    }

    /// The text, where its bytes are UTF-8.
    pub fn as_str(&self) -> (r: Option<&str>)
        ensures
            match r {
                Some(s) => valid_utf8(self@.text) && s@ == decode_utf8(self@.text),
                None => !valid_utf8(self@.text),
            },
    {
        text_of(self.text.as_slice())
    }

    /// The text, with ill-formed UTF-8 replaced.
    pub fn as_string_lossy(&self) -> (s: String)
        ensures
            s@ == lossy_text(self@.text),
            !valid_utf8(self@.text) ==> s@.contains('\u{FFFD}'),
    {
        decode_lossy(self.text.as_slice())
    }
}

/// Reads the body of a text chunk. All bytes will do.
pub fn parse_text_chunk(kind: TextKind, data: &[u8]) -> (r: Result<TextChunk, AiffError>)
    ensures
        r is Ok,
        (r->Ok_0)@ == (TextData { kind, text: data@ }),
{
    let text: Vec<u8> = copy_range(data, 0, data.len());
    assert(text@ =~= data@);
    Ok(TextChunk { kind, text })
}

/// Writes the body of a text chunk.
pub fn write_text_chunk(c: &TextChunk) -> (r: Vec<u8>)
    ensures
        r@ == c@.text,
{
    copy_range(c.text.as_slice(), 0, c.text.len())
}

/// Kinds of text and their chunk ids stand for each other.
pub proof fn law_text_kind_round_trip(kind: TextKind, id: [u8; 4])
    ensures
        text_kind(kind.ck_id()) == Some(kind),
        text_kind(id) matches Some(k) ==> k.ck_id() == id,
{
    assert(AUTHOR_ID[0] != NAME_ID[0]);
    assert(COPYRIGHT_ID[0] != NAME_ID[0]);
    assert(COPYRIGHT_ID[0] != AUTHOR_ID[0]);
    assert(ANNOTATION_ID[0] != NAME_ID[0]);
    assert(ANNOTATION_ID[1] != AUTHOR_ID[1]);
    assert(ANNOTATION_ID[0] != COPYRIGHT_ID[0]);
}

} // verus!
