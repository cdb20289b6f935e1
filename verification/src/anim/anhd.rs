//! `ANHD`, the header of a delta frame.

use vstd::prelude::*;
use crate::bytes::{
    be16, be16_bytes, be32, be32_bytes, law_be16_round_trip, law_be32_round_trip, read_be16,
    read_be32, signed16, to_signed16, to_unsigned16, unsigned16,
};
use crate::error::{IffError, Reason};

verus! {

/// The animation header.
#[derive(Clone, Copy, Debug, PartialEq, Eq, Structural)]
pub struct Anhd {
    /// How the frame's payload modifies an earlier bitmap.
    pub operation: u8,
    /// Planes that have data, for operation 1; zero stands for all of them.
    pub mask: u8,
    /// Width of the changed area.
    pub w: u16,
    /// Height of the changed area.
    pub h: u16,
    /// Left edge of the changed area.
    pub x: i16,
    /// Top edge of the changed area.
    pub y: i16,
    /// Time since the first frame, in sixtieths of a second.
    pub abs_time: u32,
    /// Time since the previous frame, in sixtieths of a second.
    pub rel_time: u32,
    /// How many frames back the modified bitmap is; zero stands for two.
    pub interleave: u8,
    /// Unused byte.
    pub pad0: u8,
    /// Option bits of operations 4 and 7.
    pub bits: u32,
}

impl Default for Anhd {
    fn default() -> (r: Self)
        ensures
            r == (Anhd {
                operation: 0,
                mask: 0,
                w: 0,
                h: 0,
                x: 0,
                y: 0,
                abs_time: 0,
                rel_time: 0,
                interleave: 0,
                pad0: 0,
                bits: 0,
            }),
    {
        Anhd {
            operation: 0,
            mask: 0,
            w: 0,
            h: 0,
            x: 0,
            y: 0,
            abs_time: 0,
            rel_time: 0,
            interleave: 0,
            pad0: 0,
            bits: 0,
        }
    }
}

/// The header that the first 24 bytes of a chunk body hold.
pub open spec fn anhd_read(d: Seq<u8>) -> Result<Anhd, IffError> {
    if d.len() < 24 {
        Err(IffError::Invalid(Reason::AnhdLength { len: d.len() as usize }))
    } else {
        Ok(
            Anhd {
                operation: d[0],
                mask: d[1],
                w: be16(d, 2),
                h: be16(d, 4),
                x: signed16(be16(d, 6)),
                y: signed16(be16(d, 8)),
                abs_time: be32(d, 10),
                rel_time: be32(d, 14),
                interleave: d[18],
                pad0: d[19],
                bits: be32(d, 20),
            },
        )
    }
}

/// The 40 bytes of a chunk body: the fields, the size of the payload that follows, and
/// reserved zeros.
pub open spec fn anhd_bytes(a: Anhd, body_size: u32) -> Seq<u8> {
    seq![a.operation, a.mask] + be16_bytes(a.w) + be16_bytes(a.h) + be16_bytes(unsigned16(a.x))
        + be16_bytes(unsigned16(a.y)) + be32_bytes(a.abs_time) + be32_bytes(a.rel_time) + seq![
        a.interleave,
        a.pad0,
    ] + be32_bytes(a.bits) + be32_bytes(body_size) + seq![0u8, 0, 0, 0, 0, 0, 0, 0, 0, 0, 0, 0]
}

impl Anhd {
    /// Reads the header from a chunk body; what lies behind its fields is not looked at.
    pub fn parse(body: &[u8]) -> (r: Result<Self, IffError>)
        ensures
            r == anhd_read(body@),
    {
        if body.len() < 24 {
            return Err(IffError::Invalid(Reason::AnhdLength { len: body.len() }));
        }
        Ok(
            Anhd {
                operation: body[0],
                mask: body[1],
                w: read_be16(body, 2),
                h: read_be16(body, 4),
                x: to_signed16(read_be16(body, 6)),
                y: to_signed16(read_be16(body, 8)),
                abs_time: read_be32(body, 10),
                rel_time: read_be32(body, 14),
                interleave: body[18],
                pad0: body[19],
                bits: read_be32(body, 20),
            },
        )
    }

    /// Writes the chunk body. `body_size` tells a player the size of the payload.
    pub fn write(&self, body_size: u32) -> (out: [u8; 40])
        ensures
            out@ == anhd_bytes(*self, body_size),
    {
        let x: u16 = to_unsigned16(self.x);
        let y: u16 = to_unsigned16(self.y);
        let out: [u8; 40] = [
            self.operation,
            self.mask,
            (self.w / 0x100) as u8,
            (self.w % 0x100) as u8,
            (self.h / 0x100) as u8,
            (self.h % 0x100) as u8,
            (x / 0x100) as u8,
            (x % 0x100) as u8,
            (y / 0x100) as u8,
            (y % 0x100) as u8,
            (self.abs_time / 0x100_0000) as u8,
            ((self.abs_time / 0x1_0000) % 0x100) as u8,
            ((self.abs_time / 0x100) % 0x100) as u8,
            (self.abs_time % 0x100) as u8,
            (self.rel_time / 0x100_0000) as u8,
            ((self.rel_time / 0x1_0000) % 0x100) as u8,
            ((self.rel_time / 0x100) % 0x100) as u8,
            (self.rel_time % 0x100) as u8,
            self.interleave,
            self.pad0,
            (self.bits / 0x100_0000) as u8,
            ((self.bits / 0x1_0000) % 0x100) as u8,
            ((self.bits / 0x100) % 0x100) as u8,
            (self.bits % 0x100) as u8,
            (body_size / 0x100_0000) as u8,
            ((body_size / 0x1_0000) % 0x100) as u8,
            ((body_size / 0x100) % 0x100) as u8,
            (body_size % 0x100) as u8,
            0,
            0,
            0,
            0,
            0,
            0,
            0,
            0,
            0,
            0,
            0,
            0,
        ];
        assert(out@ =~= anhd_bytes(*self, body_size));
        out
    }
}

/// Reading a written header gives the header.
pub proof fn law_anhd_round_trip(a: Anhd, body_size: u32)
    ensures
        anhd_bytes(a, body_size).len() == 40,
        anhd_read(anhd_bytes(a, body_size)) == Ok::<Anhd, IffError>(a),
{
    law_be16_round_trip(a.w);
    law_be16_round_trip(a.h);
    law_be16_round_trip(unsigned16(a.x));
    law_be16_round_trip(unsigned16(a.y));
    law_be32_round_trip(a.abs_time);
    law_be32_round_trip(a.rel_time);
    law_be32_round_trip(a.bits);
}

/// The places of the fields: an operation, a mask, the size and place of the changed area, the two
/// times, the interleave, an unused byte and the options.
pub proof fn law_anhd_fields(d: Seq<u8>)
    ensures
        anhd_read(d) is Ok <==> d.len() >= 24,
        anhd_read(d) matches Ok(a) ==> {
            &&& a.operation == d[0]
            &&& a.mask == d[1]
            &&& a.w == d[2] * 256 + d[3]
            &&& a.h == d[4] * 256 + d[5]
            &&& a.x == d[6] * 256 + d[7] - (if d[6] >= 128 {
                65536int
            } else {
                0
            })
            &&& a.y == d[8] * 256 + d[9] - (if d[8] >= 128 {
                65536int
            } else {
                0
            })
            &&& a.abs_time == d[10] * 0x100_0000 + d[11] * 0x1_0000 + d[12] * 0x100 + d[13]
            &&& a.rel_time == d[14] * 0x100_0000 + d[15] * 0x1_0000 + d[16] * 0x100 + d[17]
            &&& a.interleave == d[18]
            &&& a.pad0 == d[19]
            &&& a.bits == d[20] * 0x100_0000 + d[21] * 0x1_0000 + d[22] * 0x100 + d[23]
        },
{
}

} // verus!
