//! Chunks inside an AIFF file.

use vstd::prelude::*;
use crate::aiff::error::{lemma_ascii_text, AiffError};
use crate::bytes::{be32_bytes, id_at, lies_at, push_be32, read_be32, read_id};
use crate::chunk::{after_chunk, body_at, framed, lemma_framed, lemma_header, push_chunk, size_at};
use crate::text::text_of;
use vstd::slice::slice_subrange;

verus! {

/// One chunk of a FORM.
#[derive(Clone, Copy, Debug, PartialEq, Eq)]
pub struct Chunk<'a> {
    /// Id of the chunk.
    pub id: [u8; 4],
    /// Size of its body.
    pub size: u32,
    /// Its body, without the pad byte.
    pub data: &'a [u8],
}

/// What a chunk holds.
#[verifier::ext_equal]
pub struct ChunkData {
    /// Id of the chunk.
    pub id: [u8; 4],
    /// Size of its body.
    pub size: u32,
    /// Its body.
    pub body: Seq<u8>,
}

impl<'a> View for Chunk<'a> {
    type V = ChunkData;

    open spec fn view(&self) -> ChunkData {
        ChunkData { id: self.id, size: self.size, body: self.data@ }
    }
}

/// Whether a byte is a printable ASCII character.
pub open spec fn is_printable(b: u8) -> bool {
    0x20 <= b <= 0x7E
}

impl<'a> Chunk<'a> {
    /// The id as text, where it is printable ASCII.
    pub fn id_str(&self) -> (r: Option<&str>)
        ensures
            match r {
                Some(s) => s@ == Seq::new(4, |i: int| self.id[i] as char) && (forall|i: int|
                    0 <= i < 4 ==> is_printable(#[trigger] self.id[i])),
                None => exists|i: int| 0 <= i < 4 && !is_printable(#[trigger] self.id[i]),
            },
    {
        let mut i: usize = 0;
        while i < 4
            invariant
                i <= 4,
                forall|k: int| 0 <= k < i ==> is_printable(#[trigger] self.id[k]),
            decreases 4 - i,
        {
            if self.id[i] < 0x20 || self.id[i] > 0x7E {
                assert(!is_printable(self.id[i as int]));
                return None;
            }
            i += 1;
        }
        proof {
            assert forall|k: int| 0 <= k < 4 implies #[trigger] self.id@[k] < 0x80 by {
                assert(is_printable(self.id[k]));
            }
            lemma_ascii_text(self.id@, Seq::new(4, |k: int| self.id[k] as char));
        }
        text_of(&self.id)
    }
}

/// The result of reading a chunk, over what it holds.
pub open spec fn chunk_result<'a>(r: Result<Chunk<'a>, AiffError>) -> Result<ChunkData, AiffError> {
    match r {
        Ok(c) => Ok(c@),
        Err(e) => Err(e),
    }
}

/// The first chunk of `d`, or why it cannot be read.
pub open spec fn first_chunk(d: Seq<u8>) -> Result<ChunkData, AiffError> {
    if d.len() < 8 {
        Err(AiffError::Truncated("chunk header"))
    } else if 8 + size_at(d, 0) > d.len() {
        Err(
            AiffError::OversizedChunk {
                id: id_at(d, 0),
                declared: size_at(d, 0) as u32,
                available: (d.len() - 8) as u32,
            },
        )
    } else {
        Ok(ChunkData { id: id_at(d, 0), size: size_at(d, 0) as u32, body: body_at(d, 0) })
    }
}

/// What is left of `d` behind its first chunk: nothing where that cannot be read. The pad byte
/// may be missing where the data end.
pub open spec fn behind_first(d: Seq<u8>) -> Seq<u8> {
    if first_chunk(d) is Err || after_chunk(d, 0) >= d.len() {
        Seq::empty()
    } else {
        d.subrange(after_chunk(d, 0), d.len() as int)
    }
}

/// The chunks of `d`, in order. The last is an error where one cannot be read.
pub open spec fn chunk_list(d: Seq<u8>) -> Seq<Result<ChunkData, AiffError>>
    decreases d.len(),
{
    if d.len() == 0 {
        Seq::empty()
    } else {
        seq![first_chunk(d)] + chunk_list(behind_first(d))
    }
}

/// Walks over the chunks of a FORM.
#[derive(Clone, Debug)]
pub struct ChunkIter<'a> {
    rest: &'a [u8],
}

impl<'a> View for ChunkIter<'a> {
    type V = Seq<u8>;

    closed spec fn view(&self) -> Seq<u8> {
        self.rest@
    }
}

impl<'a> ChunkIter<'a> {
    /// Starts at the first chunk of `buf`.
    pub fn new(buf: &'a [u8]) -> (r: Self)
        ensures
            r@ == buf@,
    {
        ChunkIter { rest: buf }
    }

    /// The bytes that were not read yet.
    pub fn remaining(&self) -> (r: &'a [u8])
        ensures
            r@ == self@,
    {
        self.rest
    }

    /// Reads the next chunk. Nothing is left behind one that cannot be read.
    pub fn next(&mut self) -> (r: Option<Result<Chunk<'a>, AiffError>>)
        ensures
            match r {
                Some(c) => old(self)@.len() > 0 && chunk_result(c) == first_chunk(old(self)@)
                    && final(self)@ == behind_first(old(self)@),
                None => old(self)@.len() == 0 && final(self)@ == old(self)@,
            },
    {
        let d: &'a [u8] = self.rest;
        let n: usize = d.len();
        if n == 0 {
            return None;
        }
        if n < 8 {
            self.rest = slice_subrange(d, n, n);
            return Some(Err(AiffError::Truncated("chunk header")));
        }
        let id: [u8; 4] = read_id(d, 0);
        let size: u32 = read_be32(d, 4);
        let available: usize = n - 8;
        if size as u64 > available as u64 {
            self.rest = slice_subrange(d, n, n);
            return Some(
                Err(AiffError::OversizedChunk { id, declared: size, available: available as u32 }),
            );
        }
        let end: usize = 8 + size as usize;
        let data: &'a [u8] = slice_subrange(d, 8, end);
        let next: usize = if size % 2 == 1 && end < n {
            end + 1
        } else {
            end
        };
        self.rest = slice_subrange(d, next, n);
        assert(self.rest@ =~= behind_first(d@));
        Some(Ok(Chunk { id, size, data }))
    }

    /// Reads all chunks that are left.
    pub fn collect(self) -> (r: Vec<Result<Chunk<'a>, AiffError>>)
        ensures
            r@.map_values(|c: Result<Chunk<'a>, AiffError>| chunk_result(c)) == chunk_list(self@),
    {
        let mut it: Self = self;
        let mut out: Vec<Result<Chunk<'a>, AiffError>> = Vec::new();
        let ghost view = |c: Result<Chunk<'a>, AiffError>| chunk_result(c);
        loop
            invariant
                out@.map_values(view) + chunk_list(it@) == chunk_list(self@),
                view == |c: Result<Chunk<'a>, AiffError>| chunk_result(c),
            decreases it@.len(),
        {
            let ghost left = it@;
            match it.next() {
                Some(c) => {
                    let ghost out0 = out@;
                    out.push(c);
                    assert(out@.map_values(view) =~= out0.map_values(view).push(chunk_result(c)));
                    assert(out@.map_values(view) + chunk_list(it@) =~= out0.map_values(view)
                        + chunk_list(left));
                },
                None => {
                    assert(out@.map_values(view) =~= chunk_list(self@));
                    return out;
                },
            }
        }
    }
}

/// Where the next item starts behind one of `n` bytes that ends at `end`: behind a pad byte
/// where `n` is odd, unless the `total` bytes end there.
pub open spec fn past_pad(n: int, end: int, total: int) -> int {
    if n % 2 == 1 && end < total {
        end + 1
    } else {
        end
    }
}

/// How many of `n` items a 16-bit count can announce.
pub open spec fn counted(n: int) -> int {
    if n > 0xFFFF {
        0xFFFF
    } else {
        n
    }
}

/// How many of `n` items a 16-bit count can announce.
pub fn to_counted(n: usize) -> (r: usize)
    ensures
        r == counted(n as int),
{
    if n > 0xFFFF {
        0xFFFF
    } else {
        n
    }
}

/// Timestamp of the only version of the AIFF-C format.
pub const AIFC_VERSION_1: u32 = 0xA280_5140;

/// Puts a header and, where it is needed, a pad byte round the body of a chunk.
pub fn frame_chunk(id: &[u8; 4], body: &[u8]) -> (r: Result<Vec<u8>, AiffError>)
    ensures
        match r {
            Ok(v) => body@.len() <= u32::MAX && v@ == framed(*id, body@),
            Err(e) => body@.len() > u32::MAX && e == (AiffError::OversizedChunk {
                id: *id,
                declared: u32::MAX,
                available: u32::MAX,
            }),
        },
{
    if body.len() as u64 > u32::MAX as u64 {
        return Err(
            AiffError::OversizedChunk { id: *id, declared: u32::MAX, available: u32::MAX },
        );
    }
    let mut out: Vec<u8> = Vec::new();
    push_chunk(&mut out, *id, body);
    assert(out@ =~= framed(*id, body@));
    Ok(out)
}

/// Writes the body of a format version chunk.
pub fn write_fver_chunk(timestamp: u32) -> (r: [u8; 4])
    ensures
        r@ == be32_bytes(timestamp),
{
    let mut v: Vec<u8> = Vec::new();
    push_be32(&mut v, timestamp);
    let r: [u8; 4] = [v[0], v[1], v[2], v[3]];
    assert(r@ =~= be32_bytes(timestamp));
    r
}

/// A chunk that was framed is read back, and what follows it is read as if it stood alone.
pub proof fn law_frame_chunk_read_back(id: [u8; 4], body: Seq<u8>, rest: Seq<u8>)
    requires
        body.len() <= u32::MAX,
    ensures
        chunk_list(framed(id, body) + rest) == seq![
            Ok::<ChunkData, AiffError>(ChunkData { id, size: body.len() as u32, body }),
        ] + chunk_list(rest),
{
    let d = framed(id, body) + rest;
    assert(lies_at(d, 0, framed(id, body))) by {
        assert(d.subrange(0, framed(id, body).len() as int) =~= framed(id, body));
    }
    lemma_framed(d, 0, id, body);
    assert(behind_first(d) =~= rest);
}

/// The pad byte of the last chunk may be missing.
pub proof fn law_last_pad_may_be_missing(id: [u8; 4], body: Seq<u8>)
    requires
        body.len() <= u32::MAX,
    ensures
        chunk_list(id@ + be32_bytes(body.len() as u32) + body) == chunk_list(framed(id, body)),
{
    let head = id@ + be32_bytes(body.len() as u32);
    let d = head + body;
    assert(lies_at(d, 0, head)) by {
        assert(d.subrange(0, head.len() as int) =~= head);
    }
    lemma_header(d, 0, id, body.len() as u32);
    assert(body_at(d, 0) =~= body);
    law_frame_chunk_read_back(id, body, Seq::empty());
    assert(framed(id, body) + Seq::empty() =~= framed(id, body));
    assert(chunk_list(behind_first(d)) =~= Seq::empty());
    assert(chunk_list(Seq::<u8>::empty()) =~= Seq::empty());
}

} // verus!
