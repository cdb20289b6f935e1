//! The sound accelerator chunk: data that prime a decompressor at a marker.

use vstd::prelude::*;
use crate::aiff::chunk::{counted, past_pad, to_counted};
use crate::aiff::error::AiffError;
use crate::aiff::marker::{marker_by_id, Marker, MarkerChunk};
use crate::bytes::{
    be16, be16_bytes, copy_range, law_signed_round_trip, lemma_lies_be16, lemma_lies_split, lies_at,
    push_all, push_be16, read_be16, signed16, to_signed16, to_unsigned16, unsigned16,
};
use crate::chunk::pad_of;
use vstd::slice::slice_subrange;

verus! {

/// The data for one marker.
#[derive(Clone, Debug, PartialEq, Eq)]
pub struct Saxel {
    /// Id of the marker.
    pub id: i16,
    /// The data, which depend on the compression.
    pub data: Vec<u8>,
}

/// What a saxel says.
#[verifier::ext_equal]
pub struct SaxelData {
    /// Id of the marker.
    pub id: i16,
    /// The data.
    pub data: Seq<u8>,
}

impl View for Saxel {
    type V = SaxelData;

    open spec fn view(&self) -> SaxelData {
        SaxelData { id: self.id, data: self.data@ }
    }
}

impl Saxel {
    /// Number of bytes of the data.
    pub fn len(&self) -> (n: usize)
        ensures
            n == self.data@.len(),
    {
        self.data.len()
    }

    /// Whether there are no data.
    pub fn is_empty(&self) -> (r: bool)
        ensures
            r == (self.data@.len() == 0),
    {
        self.data.len() == 0
    }

    /// The marker that the data are for.
    pub fn resolve_marker<'m>(&self, markers: &'m MarkerChunk) -> (r: Option<&'m Marker>)
        ensures
            match r {
                Some(m) => self.id > 0 && marker_by_id(markers@, self.id) == Some(m@),
                None => self.id <= 0 || marker_by_id(markers@, self.id) is None,
            },
    {
        if self.id <= 0 {
            return None;
        }
        markers.by_id(self.id)
    }
}

/// A sound accelerator chunk.
#[derive(Clone, Debug, PartialEq, Eq)]
pub struct SaxelChunk {
    /// The saxels, in the order of the file.
    pub saxels: Vec<Saxel>,
}

impl View for SaxelChunk {
    type V = Seq<SaxelData>;

    open spec fn view(&self) -> Seq<SaxelData> {
        self.saxels@.map_values(|s: Saxel| s@)
    }
}

impl Default for SaxelChunk {
    fn default() -> (r: Self)
        ensures
            r@ == Seq::<SaxelData>::empty(),
    {
        let r: SaxelChunk = SaxelChunk { saxels: Vec::new() };
        assert(r@ =~= Seq::empty());
        r
    }
}

/// The first saxel from `i` on that is for the given marker.
pub open spec fn saxel_from(ss: Seq<SaxelData>, id: i16, i: int) -> Option<SaxelData>
    decreases ss.len() - i,
{
    if i < 0 || i >= ss.len() {
        None
    } else if ss[i].id == id {
        Some(ss[i])
    } else {
        saxel_from(ss, id, i + 1)
    }
}

impl SaxelChunk {
    /// The first saxel for the given marker.
    pub fn by_marker_id(&self, id: i16) -> (r: Option<&Saxel>)
        ensures
            match r {
                Some(s) => saxel_from(self@, id, 0) == Some(s@),
                None => saxel_from(self@, id, 0) is None,
            },
    {
        let mut i: usize = 0;
        while i < self.saxels.len()
            invariant
                i <= self.saxels.len(),
                saxel_from(self@, id, i as int) == saxel_from(self@, id, 0),
            decreases self.saxels.len() - i,
        {
            if self.saxels[i].id == id {
                return Some(&self.saxels[i]);
            }
            i += 1;
        }
        None
    }
}

/// `seen` and the `n` saxels that start at `at`.
pub open spec fn saxels_read(d: Seq<u8>, at: int, n: int, seen: Seq<SaxelData>) -> Result<
    Seq<SaxelData>,
    AiffError,
>
    decreases n,
{
    let size = be16(d, at + 2) as int;
    let end = at + 4 + size;
    if n <= 0 {
        Ok(seen)
    } else if at + 4 > d.len() {
        Err(AiffError::Truncated("SAXL saxel header"))
    } else if end > d.len() {
        Err(AiffError::Truncated("SAXL saxelData"))
    } else {
        saxels_read(
            d,
            past_pad(size, end, d.len() as int),
            n - 1,
            seen.push(SaxelData { id: signed16(be16(d, at)), data: d.subrange(at + 4, end) }),
        )
    }
}

/// The saxels of a sound accelerator chunk.
pub open spec fn saxel_chunk(d: Seq<u8>) -> Result<Seq<SaxelData>, AiffError> {
    if d.len() < 2 {
        Err(AiffError::Truncated("SAXL numSaxels"))
    } else {
        saxels_read(d, 2, be16(d, 0) as int, Seq::empty())
    }
}

/// Reads the body of a sound accelerator chunk.
pub fn parse_saxel_chunk(data: &[u8]) -> (r: Result<SaxelChunk, AiffError>)
    ensures
        match r {
            Ok(c) => saxel_chunk(data@) == Ok::<Seq<SaxelData>, AiffError>(c@),
            Err(e) => saxel_chunk(data@) == Err::<Seq<SaxelData>, AiffError>(e),
        },
{
    let n: usize = data.len();
    if n < 2 {
        return Err(AiffError::Truncated("SAXL numSaxels"));
    }
    let mut out: SaxelChunk = SaxelChunk { saxels: Vec::new() };
    assert(out@ =~= Seq::empty());
    let mut left: u16 = read_be16(data, 0);
    let mut at: usize = 2;
    while left > 0
        invariant
            n == data@.len(),
            at <= n,
            saxels_read(data@, at as int, left as int, out@) == saxel_chunk(data@),
        decreases left,
    {
        if n - at < 4 {
            return Err(AiffError::Truncated("SAXL saxel header"));
        }
        let id: i16 = to_signed16(read_be16(data, at));
        let size: usize = read_be16(data, at + 2) as usize;
        let start: usize = at + 4;
        if n - start < size {
            return Err(AiffError::Truncated("SAXL saxelData"));
        }
        let end: usize = start + size;
        let ghost before = out@;
        let s: Saxel = Saxel { id, data: copy_range(data, start, end) };
        out.saxels.push(s);
        assert(out@ =~= before.push(s@));
        at = if size % 2 == 1 && end < n {
            end + 1
        } else {
            end
        };
        left = left - 1;
    }
    Ok(out)
}

/// The data that a saxel is written with: at most 65535 bytes.
pub open spec fn stored_data(data: Seq<u8>) -> Seq<u8> {
    data.take(counted(data.len() as int))
}

/// The bytes of a saxel.
pub open spec fn saxel_bytes(s: SaxelData) -> Seq<u8> {
    let data = stored_data(s.data);
    be16_bytes(unsigned16(s.id)) + be16_bytes(data.len() as u16) + data + pad_of(data.len() as int)
}

/// The bytes of the saxels `i..n`.
pub open spec fn saxels_bytes(ss: Seq<SaxelData>, i: int, n: int) -> Seq<u8>
    decreases n - i,
{
    if i >= n {
        Seq::empty()
    } else {
        saxel_bytes(ss[i]) + saxels_bytes(ss, i + 1, n)
    }
}

/// The body of a sound accelerator chunk. Only the first 65535 saxels are written.
pub open spec fn saxel_chunk_bytes(ss: Seq<SaxelData>) -> Seq<u8> {
    let n = counted(ss.len() as int);
    be16_bytes(n as u16) + saxels_bytes(ss, 0, n)
}

fn write_one_saxel(out: &mut Vec<u8>, s: &Saxel)
    ensures
        final(out)@ == old(out)@ + saxel_bytes(s@),
{
    let ghost out0 = out@;
    push_be16(out, to_unsigned16(s.id));
    let size: usize = to_counted(s.data.len());
    push_be16(out, size as u16);
    push_all(out, slice_subrange(s.data.as_slice(), 0, size));
    if size % 2 == 1 {
        out.push(0);
    }
    assert(out@ =~= out0 + saxel_bytes(s@));
}

/// Writes the body of a sound accelerator chunk.
pub fn write_saxel_chunk(c: &SaxelChunk) -> (out: Vec<u8>)
    ensures
        out@ == saxel_chunk_bytes(c@),
{
    let count: usize = to_counted(c.saxels.len());
    let mut out: Vec<u8> = Vec::new();
    push_be16(&mut out, count as u16);
    assert(out@ + saxels_bytes(c@, 0, count as int) =~= saxel_chunk_bytes(c@));
    let mut i: usize = 0;
    while i < count
        invariant
            i <= count <= c.saxels.len(),
            out@ + saxels_bytes(c@, i as int, count as int) == saxel_chunk_bytes(c@),
        decreases count - i,
    {
        let ghost before = out@;
        write_one_saxel(&mut out, &c.saxels[i]);
        proof {
            let rest = saxels_bytes(c@, i + 1, count as int);
            assert(out@ + rest =~= before + (saxel_bytes(c@[i as int]) + rest));
        }
        i += 1;
    }
    assert(out@ =~= saxel_chunk_bytes(c@));
    out
}

/// A saxel as it comes back from a file.
pub open spec fn stored_saxel(s: SaxelData) -> SaxelData {
    SaxelData { data: stored_data(s.data), ..s }
}

/// Saxels as they come back from a file.
pub open spec fn stored_saxels(ss: Seq<SaxelData>) -> Seq<SaxelData> {
    ss.take(counted(ss.len() as int)).map_values(|s: SaxelData| stored_saxel(s))
}

proof fn lemma_saxel_back(d: Seq<u8>, at: int, s: SaxelData)
    requires
        lies_at(d, at, saxel_bytes(s)),
    ensures
        at + 4 + stored_data(s.data).len() <= d.len(),
        signed16(be16(d, at)) == s.id,
        be16(d, at + 2) == stored_data(s.data).len(),
        d.subrange(at + 4, at + 4 + stored_data(s.data).len()) == stored_data(s.data),
        past_pad(
            stored_data(s.data).len() as int,
            at + 4 + stored_data(s.data).len(),
            d.len() as int,
        ) == at + saxel_bytes(s).len(),
{
    let data = stored_data(s.data);
    let m = be16_bytes(unsigned16(s.id));
    let l = be16_bytes(data.len() as u16);
    let p = pad_of(data.len() as int);
    assert(saxel_bytes(s) =~= m + (l + (data + p)));
    lemma_lies_split(d, at, m, l + (data + p));
    lemma_lies_split(d, at + 2, l, data + p);
    lemma_lies_split(d, at + 4, data, p);
    lemma_lies_be16(d, at, unsigned16(s.id));
    lemma_lies_be16(d, at + 2, data.len() as u16);
    law_signed_round_trip(s.id, 0);
}

proof fn lemma_saxels_back(ss: Seq<SaxelData>, n: int, d: Seq<u8>, at: int, i: int)
    requires
        0 <= i <= n <= ss.len(),
        lies_at(d, at, saxels_bytes(ss, i, n)),
    ensures
        saxels_read(
            d,
            at,
            n - i,
            ss.take(i).map_values(|s: SaxelData| stored_saxel(s)),
        ) == Ok::<Seq<SaxelData>, AiffError>(
            ss.take(n).map_values(|s: SaxelData| stored_saxel(s)),
        ),
    decreases n - i,
{
    let f = |s: SaxelData| stored_saxel(s);
    if i < n {
        let s = ss[i];
        lemma_lies_split(d, at, saxel_bytes(s), saxels_bytes(ss, i + 1, n));
        lemma_saxel_back(d, at, s);
        assert(ss.take(i).map_values(f).push(stored_saxel(s)) =~= ss.take(i + 1).map_values(f));
        lemma_saxels_back(ss, n, d, at + saxel_bytes(s).len(), i + 1);
    }
}

/// The saxels are read back without the pad byte of the last one, too.
proof fn lemma_saxels_unpadded(ss: Seq<SaxelData>, n: int, d: Seq<u8>, at: int, i: int)
    requires
        0 <= i < n <= ss.len(),
        0 <= at,
        lies_at(d, at, saxels_bytes(ss, i, n)),
        at + saxels_bytes(ss, i, n).len() == d.len(),
        stored_data(ss[n - 1].data).len() % 2 == 1,
    ensures
        saxels_read(
            d.drop_last(),
            at,
            n - i,
            ss.take(i).map_values(|s: SaxelData| stored_saxel(s)),
        ) == Ok::<Seq<SaxelData>, AiffError>(
            ss.take(n).map_values(|s: SaxelData| stored_saxel(s)),
        ),
    decreases n - i,
{
    let f = |s: SaxelData| stored_saxel(s);
    let e = d.drop_last();
    let s = ss[i];
    let data = stored_data(s.data);
    let seen = ss.take(i).map_values(f);
    lemma_lies_split(d, at, saxel_bytes(s), saxels_bytes(ss, i + 1, n));
    lemma_saxel_back(d, at, s);
    assert(saxel_bytes(s).len() == 4 + data.len() + data.len() as int % 2);
    assert(seen.push(stored_saxel(s)) =~= ss.take(i + 1).map_values(f));
    if i + 1 < n {
        assert(saxels_bytes(ss, i + 1, n).len() >= saxel_bytes(ss[i + 1]).len() >= 4);
        lemma_saxels_unpadded(ss, n, d, at + saxel_bytes(s).len(), i + 1);
    }
    assert(at + 4 + data.len() <= e.len());
    assert(be16(e, at) == be16(d, at));
    assert(be16(e, at + 2) == be16(d, at + 2));
    assert(e.subrange(at + 4, at + 4 + data.len()) =~= data);
    let next = past_pad(data.len() as int, at + 4 + data.len(), e.len() as int);
    assert(i + 1 < n ==> next == at + saxel_bytes(s).len());
    assert(saxels_read(e, next, n - i - 1, seen.push(stored_saxel(s))) == Ok::<
        Seq<SaxelData>,
        AiffError,
    >(ss.take(n).map_values(f)));
}

/// Saxels that are written are read back: the first 65535 of them, each with the first 65535
/// bytes of its data, and thus all of them, unchanged, where there are no more. So they are
/// where the pad byte behind the last of them is missing.
pub proof fn law_saxel_round_trip(ss: Seq<SaxelData>)
    ensures
        saxel_chunk(saxel_chunk_bytes(ss)) == Ok::<Seq<SaxelData>, AiffError>(stored_saxels(ss)),
        ss.len() > 0 && stored_data(ss[counted(ss.len() as int) - 1].data).len() % 2 == 1
            ==> saxel_chunk(saxel_chunk_bytes(ss).drop_last()) == Ok::<Seq<SaxelData>, AiffError>(
            stored_saxels(ss),
        ),
        ss.len() <= 0xFFFF && (forall|i: int|
            0 <= i < ss.len() ==> (#[trigger] ss[i]).data.len() <= 0xFFFF) ==> stored_saxels(ss)
            == ss,
{
    let n = counted(ss.len() as int);
    let d = saxel_chunk_bytes(ss);
    assert(lies_at(d, 0, be16_bytes(n as u16) + saxels_bytes(ss, 0, n))) by {
        assert(d.subrange(0, d.len() as int) =~= d);
    }
    lemma_lies_split(d, 0, be16_bytes(n as u16), saxels_bytes(ss, 0, n));
    lemma_lies_be16(d, 0, n as u16);
    assert(ss.take(0).map_values(|s: SaxelData| stored_saxel(s)) =~= Seq::empty());
    lemma_saxels_back(ss, n, d, 2, 0);
    if ss.len() > 0 && stored_data(ss[n - 1].data).len() % 2 == 1 {
        lemma_saxels_unpadded(ss, n, d, 2, 0);
        assert(be16(d.drop_last(), 0) == be16(d, 0));
    }
    if ss.len() <= 0xFFFF && (forall|i: int|
        0 <= i < ss.len() ==> (#[trigger] ss[i]).data.len() <= 0xFFFF) {
        assert forall|i: int| 0 <= i < ss.len() implies stored_saxel(#[trigger] ss[i]) == ss[i] by {
            assert(stored_data(ss[i].data) =~= ss[i].data);
        }
        assert(stored_saxels(ss) =~= ss);
    }
}

} // verus!
