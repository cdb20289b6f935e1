//! The MIDI data chunk: a stream of MIDI bytes.

use vstd::prelude::*;
use crate::aiff::error::AiffError;
use crate::bytes::copy_range;

verus! {

/// A MIDI data chunk.
#[derive(Clone, Debug, PartialEq, Eq)]
pub struct MidiDataChunk {
    /// The bytes.
    pub data: Vec<u8>,
}

impl View for MidiDataChunk {
    type V = Seq<u8>;

    open spec fn view(&self) -> Seq<u8> {
        self.data@
    }
}

impl MidiDataChunk {
    /// Number of bytes.
    pub fn len(&self) -> (n: usize)
        ensures
            n == self@.len(),
    {
        self.data.len()
    }

    /// Whether there are no bytes.
    pub fn is_empty(&self) -> (r: bool)
        ensures
            r == (self@.len() == 0),
    {
        self.data.len() == 0
    }

    /// Whether the bytes start with a system exclusive message.
    pub fn is_sysex(&self) -> (r: bool)
        ensures
            r == (self@.len() > 0 && self@[0] == 0xF0),
    {
        self.data.len() > 0 && self.data[0] == 0xF0
    }
}

/// Reads the body of a MIDI data chunk. All bytes will do.
pub fn parse_midi_chunk(data: &[u8]) -> (r: Result<MidiDataChunk, AiffError>)
    ensures
        r is Ok,
        (r->Ok_0)@ == data@,
{
    let data: Vec<u8> = copy_range(data, 0, data.len());
    Ok(MidiDataChunk { data })
}

/// Writes the body of a MIDI data chunk.
pub fn write_midi_chunk(c: &MidiDataChunk) -> (r: Vec<u8>)
    ensures
        r@ == c@,
{
    copy_range(c.data.as_slice(), 0, c.data.len())
}

} // verus!
