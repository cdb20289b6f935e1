//! The audio recording chunk: the channel status of a digital recording.

use vstd::prelude::*;
use crate::aiff::error::AiffError;

verus! {

/// How the recording was emphasised.
#[derive(Clone, Copy, Debug, PartialEq, Eq, Structural)]
pub struct Emphasis {
    /// The three bits that say so.
    pub bits: u8,
}

/// An audio recording chunk.
#[derive(Clone, Copy, Debug, PartialEq, Eq)]
pub struct AesdChunk {
    /// The channel status.
    pub status: [u8; 24],
}

impl AesdChunk {
    /// Bits 2 to 4 of the first byte.
    pub fn emphasis(&self) -> (r: Emphasis)
        ensures
            r.bits == self.status[0] / 4 % 8,
    {
        Emphasis { bits: self.status[0] / 4 % 8 }
    }
}

/// The channel status that the body of a chunk holds.
pub open spec fn aesd_read(d: Seq<u8>) -> Result<Seq<u8>, AiffError> {
    if d.len() < 24 {
        Err(AiffError::Truncated("AESD chunk"))
    } else if d.len() > 24 {
        Err(AiffError::InvalidValue { what: "AESD ckSize", value: d.len() as i64 })
    } else {
        Ok(d)
    }
}

/// Reads the body of an audio recording chunk.
pub fn parse_aesd_chunk(data: &[u8]) -> (r: Result<AesdChunk, AiffError>)
    ensures
        match r {
            Ok(c) => aesd_read(data@) == Ok::<Seq<u8>, AiffError>(c.status@),
            Err(e) => aesd_read(data@) == Err::<Seq<u8>, AiffError>(e),
        },
{
    let n: usize = data.len();
    if n < 24 {
        return Err(AiffError::Truncated("AESD chunk"));
    }
    if n > 24 {
        return Err(AiffError::InvalidValue { what: "AESD ckSize", value: n as i64 });
    }
    let mut status: [u8; 24] = [0;24];
    let mut i: usize = 0;
    while i < 24
        invariant
            i <= 24,
            data@.len() == 24,
            forall|k: int| 0 <= k < i ==> status[k] == data@[k],
        decreases 24 - i,
    {
        status[i] = data[i];
        i += 1;
    }
    assert(status@ =~= data@);
    Ok(AesdChunk { status })
}

/// Writes the body of an audio recording chunk.
pub fn write_aesd_chunk(c: &AesdChunk) -> (r: [u8; 24])
    ensures
        r@ == c.status@,
{
    c.status
}

/// A channel status that is written is read back.
pub proof fn law_aesd_round_trip(c: AesdChunk)
    ensures
        aesd_read(c.status@) == Ok::<Seq<u8>, AiffError>(c.status@),
{
}

} // verus!
