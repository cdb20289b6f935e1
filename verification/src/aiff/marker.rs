//! The marker chunk: named positions in the sound data.

use vstd::prelude::*;
use crate::aiff::chunk::{counted, to_counted};
use crate::aiff::error::AiffError;
use crate::aiff::pstring::{pstring_bytes, push_pstring, stored_name};
use crate::bytes::{
    be16, be16_bytes, be32, be32_bytes, law_signed_round_trip, lemma_lies_be16, lemma_lies_be32,
    lemma_lies_byte, lemma_lies_split, lies_at, push_be16, push_be32, read_be16, read_be32,
    signed16, to_signed16, to_unsigned16, unsigned16,
};
use crate::chunk::pad_of;
use crate::text::{decode_lossy, lossy_text};
use vstd::slice::slice_subrange;
use vstd::string::*;
use vstd::utf8::{encode_utf8, encode_utf8_decode_utf8, encode_utf8_valid_utf8};

verus! {

/// A named position.
#[derive(Clone, Debug, PartialEq, Eq)]
pub struct Marker {
    /// Id of the marker, 1 or more.
    pub id: i16,
    /// Sample frame before which the marker stands.
    pub position: u32,
    /// Name of the marker.
    pub name: String,
}

/// What a marker says.
#[verifier::ext_equal]
pub struct MarkerData {
    /// Id of the marker.
    pub id: i16,
    /// Sample frame before which the marker stands.
    pub position: u32,
    /// Name of the marker.
    pub name: Seq<char>,
}

impl View for Marker {
    type V = MarkerData;

    open spec fn view(&self) -> MarkerData {
        MarkerData { id: self.id, position: self.position, name: self.name@ }
    }
}

/// A marker chunk.
#[derive(Clone, Debug, PartialEq, Eq)]
pub struct MarkerChunk {
    /// The markers, in the order of the file.
    pub markers: Vec<Marker>,
}

impl View for MarkerChunk {
    type V = Seq<MarkerData>;

    open spec fn view(&self) -> Seq<MarkerData> {
        self.markers@.map_values(|m: Marker| m@)
    }
}

impl Default for MarkerChunk {
    fn default() -> (r: Self)
        ensures
            r@ == Seq::<MarkerData>::empty(),
    {
        let r: MarkerChunk = MarkerChunk { markers: Vec::new() };
        assert(r@ =~= Seq::empty());
        r
    }
}

/// The first marker from `i` on that has the given id.
pub open spec fn marker_from(ms: Seq<MarkerData>, id: i16, i: int) -> Option<MarkerData>
    decreases ms.len() - i,
{
    if i < 0 || i >= ms.len() {
        None
    } else if ms[i].id == id {
        Some(ms[i])
    } else {
        marker_from(ms, id, i + 1)
    }
}

/// The marker with the given id.
pub open spec fn marker_by_id(ms: Seq<MarkerData>, id: i16) -> Option<MarkerData> {
    marker_from(ms, id, 0)
}

impl MarkerChunk {
    /// The marker with the given id.
    pub fn by_id(&self, id: i16) -> (r: Option<&Marker>)
        ensures
            match r {
                Some(m) => marker_by_id(self@, id) == Some(m@),
                None => marker_by_id(self@, id) is None,
            },
    {
        let mut i: usize = 0;
        while i < self.markers.len()
            invariant
                i <= self.markers.len(),
                marker_from(self@, id, i as int) == marker_by_id(self@, id),
            decreases self.markers.len() - i,
        {
            if self.markers[i].id == id {
                return Some(&self.markers[i]);
            }
            i += 1;
        }
        None
    }
}

/// A name with its length in the byte before it, and how many bytes the two take. Their number
/// is made even by a pad byte, which may be missing where the data end.
pub open spec fn marker_name(d: Seq<u8>) -> Result<(Seq<char>, int), AiffError> {
    if d.len() == 0 {
        Err(AiffError::Truncated("MARK markerName length byte"))
    } else if 1 + d[0] > d.len() {
        Err(AiffError::Truncated("MARK markerName body"))
    } else if d[0] % 2 == 0 && 1 + d[0] < d.len() {
        Ok((lossy_text(d.subrange(1, 1 + d[0])), 2 + d[0]))
    } else {
        Ok((lossy_text(d.subrange(1, 1 + d[0])), 1 + d[0]))
    }
}

/// Reads a name with its length in the byte before it, and says how many bytes it took.
pub fn parse_marker_pstring(data: &[u8]) -> (r: Result<(String, usize), AiffError>)
    ensures
        match r {
            Ok((s, n)) => marker_name(data@) == Ok::<(Seq<char>, int), AiffError>((s@, n as int))
                && n <= data@.len(),
            Err(e) => marker_name(data@) == Err::<(Seq<char>, int), AiffError>(e),
        },
{
    if data.len() == 0 {
        return Err(AiffError::Truncated("MARK markerName length byte"));
    }
    let len: usize = data[0] as usize;
    if 1 + len > data.len() {
        return Err(AiffError::Truncated("MARK markerName body"));
    }
    let name: String = decode_lossy(slice_subrange(data, 1, 1 + len));
    if len % 2 == 0 && 1 + len < data.len() {
        Ok((name, 2 + len))
    } else {
        Ok((name, 1 + len))
    }
}

/// `seen` and the `n` markers that start at `at`.
pub open spec fn markers_read(d: Seq<u8>, at: int, n: int, seen: Seq<MarkerData>) -> Result<
    Seq<MarkerData>,
    AiffError,
>
    decreases n,
{
    let id = signed16(be16(d, at));
    if n <= 0 {
        Ok(seen)
    } else if at + 7 > d.len() {
        Err(AiffError::Truncated("MARK marker entry"))
    } else if id < 1 {
        Err(AiffError::InvalidValue { what: "MarkerId", value: id as i64 })
    } else {
        match marker_name(d.subrange(at + 6, d.len() as int)) {
            Err(e) => Err(e),
            Ok((name, taken)) => if marker_by_id(seen, id) is Some {
                Err(AiffError::DuplicateMarkerId(id))
            } else {
                markers_read(
                    d,
                    at + 6 + taken,
                    n - 1,
                    seen.push(MarkerData { id, position: be32(d, at + 2), name }),
                )
            },
        }
    }
}

/// The markers of a marker chunk.
pub open spec fn marker_chunk(d: Seq<u8>) -> Result<Seq<MarkerData>, AiffError> {
    if d.len() < 2 {
        Err(AiffError::Truncated("MARK numMarkers"))
    } else {
        markers_read(d, 2, be16(d, 0) as int, Seq::empty())
    }
}

/// Reads the body of a marker chunk.
pub fn parse_marker_chunk(data: &[u8]) -> (r: Result<MarkerChunk, AiffError>)
    ensures
        match r {
            Ok(c) => marker_chunk(data@) == Ok::<Seq<MarkerData>, AiffError>(c@),
            Err(e) => marker_chunk(data@) == Err::<Seq<MarkerData>, AiffError>(e),
        },
{
    let n: usize = data.len();
    if n < 2 {
        return Err(AiffError::Truncated("MARK numMarkers"));
    }
    let mut out: MarkerChunk = MarkerChunk { markers: Vec::new() };
    assert(out@ =~= Seq::empty());
    let mut left: u16 = read_be16(data, 0);
    let mut at: usize = 2;
    while left > 0
        invariant
            n == data@.len(),
            at <= n,
            markers_read(data@, at as int, left as int, out@) == marker_chunk(data@),
        decreases left,
    {
        if n - at < 7 {
            return Err(AiffError::Truncated("MARK marker entry"));
        }
        let id: i16 = to_signed16(read_be16(data, at));
        if id < 1 {
            return Err(AiffError::InvalidValue { what: "MarkerId", value: id as i64 });
        }
        let position: u32 = read_be32(data, at + 2);
        let (name, taken) = match parse_marker_pstring(slice_subrange(data, at + 6, n)) {
            Ok(x) => x,
            Err(e) => {
                return Err(e);
            },
        };
        if out.by_id(id).is_some() {
            return Err(AiffError::DuplicateMarkerId(id));
        }
        let ghost before = out@;
        let m: Marker = Marker { id, position, name };
        out.markers.push(m);
        assert(out@ =~= before.push(m@));
        at = at + 6 + taken;
        left = left - 1;
    }
    Ok(out)
}

/// The bytes of a marker.
pub open spec fn marker_bytes(m: MarkerData) -> Seq<u8> {
    be16_bytes(unsigned16(m.id)) + be32_bytes(m.position) + pstring_bytes(m.name)
}

/// The bytes of the markers `i..n`.
pub open spec fn markers_bytes(ms: Seq<MarkerData>, i: int, n: int) -> Seq<u8>
    decreases n - i,
{
    if i >= n {
        Seq::empty()
    } else {
        marker_bytes(ms[i]) + markers_bytes(ms, i + 1, n)
    }
}

/// The body of a marker chunk. Only the first 65535 markers are written.
pub open spec fn marker_chunk_bytes(ms: Seq<MarkerData>) -> Seq<u8> {
    let n = counted(ms.len() as int);
    be16_bytes(n as u16) + markers_bytes(ms, 0, n)
}

fn push_marker(out: &mut Vec<u8>, m: &Marker)
    ensures
        final(out)@ == old(out)@ + marker_bytes(m@),
{
    let ghost out0 = out@;
    push_be16(out, to_unsigned16(m.id));
    push_be32(out, m.position);
    push_pstring(out, m.name.as_str());
    assert(out@ =~= out0 + marker_bytes(m@));
}

/// Writes the body of a marker chunk.
pub fn write_marker_chunk(m: &MarkerChunk) -> (out: Vec<u8>)
    ensures
        out@ == marker_chunk_bytes(m@),
{
    let count: usize = to_counted(m.markers.len());
    let mut out: Vec<u8> = Vec::new();
    push_be16(&mut out, count as u16);
    assert(out@ + markers_bytes(m@, 0, count as int) =~= marker_chunk_bytes(m@));
    let mut i: usize = 0;
    while i < count
        invariant
            i <= count <= m.markers.len(),
            out@ + markers_bytes(m@, i as int, count as int) == marker_chunk_bytes(m@),
        decreases count - i,
    {
        let ghost before = out@;
        push_marker(&mut out, &m.markers[i]);
        proof {
            let rest = markers_bytes(m@, i + 1, count as int);
            assert(out@ + rest =~= before + (marker_bytes(m@[i as int]) + rest));
        }
        i += 1;
    }
    assert(out@ =~= marker_chunk_bytes(m@));
    out
}

/// Whether the ids are 1 or more and no two are the same.
pub open spec fn ids_distinct(ms: Seq<MarkerData>) -> bool {
    &&& forall|i: int| 0 <= i < ms.len() ==> (#[trigger] ms[i]).id >= 1
    &&& forall|i: int, j: int|
        0 <= i < j < ms.len() ==> (#[trigger] ms[i]).id != (#[trigger] ms[j]).id
}

proof fn lemma_marker_absent(ms: Seq<MarkerData>, id: i16, i: int)
    requires
        0 <= i,
    ensures
        marker_from(ms, id, i) is None <==> (forall|k: int|
            i <= k < ms.len() ==> (#[trigger] ms[k]).id != id),
    decreases ms.len() - i,
{
    if i < ms.len() {
        lemma_marker_absent(ms, id, i + 1);
    }
}

proof fn lemma_ids_distinct(d: Seq<u8>, at: int, n: int, seen: Seq<MarkerData>)
    requires
        ids_distinct(seen),
    ensures
        markers_read(d, at, n, seen) matches Ok(ms) ==> ids_distinct(ms),
    decreases n,
{
    if n > 0 && at + 7 <= d.len() && signed16(be16(d, at)) >= 1 {
        let id = signed16(be16(d, at));
        match marker_name(d.subrange(at + 6, d.len() as int)) {
            Err(_) => {},
            Ok((name, taken)) => {
                if marker_by_id(seen, id) is None {
                    lemma_marker_absent(seen, id, 0);
                    let m = MarkerData { id, position: be32(d, at + 2), name };
                    lemma_ids_distinct(d, at + 6 + taken, n - 1, seen.push(m));
                }
            },
        }
    }
}

/// The markers that are read have ids of 1 or more, and no two have the same.
pub proof fn law_marker_ids_distinct(d: Seq<u8>)
    ensures
        marker_chunk(d) matches Ok(ms) ==> ids_distinct(ms),
{
    if d.len() >= 2 {
        lemma_ids_distinct(d, 2, be16(d, 0) as int, Seq::empty());
    }
}

/// A marker as it comes back from a file.
pub open spec fn stored_marker(m: MarkerData) -> MarkerData {
    MarkerData { name: lossy_text(stored_name(m.name)), ..m }
}

/// Markers as they come back from a file.
pub open spec fn stored_markers(ms: Seq<MarkerData>) -> Seq<MarkerData> {
    ms.take(counted(ms.len() as int)).map_values(|m: MarkerData| stored_marker(m))
}

proof fn lemma_marker_back(d: Seq<u8>, at: int, m: MarkerData)
    requires
        lies_at(d, at, marker_bytes(m)),
    ensures
        at + 7 <= d.len(),
        signed16(be16(d, at)) == m.id,
        be32(d, at + 2) == m.position,
        marker_name(d.subrange(at + 6, d.len() as int)) == Ok::<(Seq<char>, int), AiffError>(
            (stored_marker(m).name, marker_bytes(m).len() - 6),
        ),
{
    let name = stored_name(m.name);
    let a = be16_bytes(unsigned16(m.id));
    let b = be32_bytes(m.position);
    let l = seq![name.len() as u8];
    let p = pad_of(1int + name.len());
    assert(marker_bytes(m) =~= a + (b + (l + (name + p))));
    lemma_lies_split(d, at, a, b + (l + (name + p)));
    lemma_lies_split(d, at + 2, b, l + (name + p));
    lemma_lies_split(d, at + 6, l, name + p);
    lemma_lies_split(d, at + 7, name, p);
    lemma_lies_be16(d, at, unsigned16(m.id));
    lemma_lies_be32(d, at + 2, m.position);
    lemma_lies_byte(d, at + 6, l, 0);
    law_signed_round_trip(m.id, 0);
    let tail = d.subrange(at + 6, d.len() as int);
    assert(tail[0] == name.len());
    assert(tail.subrange(1, 1 + tail[0]) =~= name);
}

proof fn lemma_markers_back(ms: Seq<MarkerData>, n: int, d: Seq<u8>, at: int, i: int)
    requires
        ids_distinct(ms),
        0 <= i <= n <= ms.len(),
        lies_at(d, at, markers_bytes(ms, i, n)),
    ensures
        markers_read(
            d,
            at,
            n - i,
            ms.take(i).map_values(|m: MarkerData| stored_marker(m)),
        ) == Ok::<Seq<MarkerData>, AiffError>(
            ms.take(n).map_values(|m: MarkerData| stored_marker(m)),
        ),
    decreases n - i,
{
    let f = |m: MarkerData| stored_marker(m);
    let seen = ms.take(i).map_values(f);
    if i < n {
        let m = ms[i];
        lemma_lies_split(d, at, marker_bytes(m), markers_bytes(ms, i + 1, n));
        lemma_marker_back(d, at, m);
        lemma_marker_absent(seen, m.id, 0);
        assert(seen.push(stored_marker(m)) =~= ms.take(i + 1).map_values(f));
        lemma_markers_back(ms, n, d, at + marker_bytes(m).len(), i + 1);
    }
}

/// The markers are read back without the pad byte of the last one, too.
proof fn lemma_markers_unpadded(ms: Seq<MarkerData>, n: int, d: Seq<u8>, at: int, i: int)
    requires
        ids_distinct(ms),
        0 <= i < n <= ms.len(),
        0 <= at,
        lies_at(d, at, markers_bytes(ms, i, n)),
        at + markers_bytes(ms, i, n).len() == d.len(),
        stored_name(ms[n - 1].name).len() % 2 == 0,
    ensures
        markers_read(
            d.drop_last(),
            at,
            n - i,
            ms.take(i).map_values(|m: MarkerData| stored_marker(m)),
        ) == Ok::<Seq<MarkerData>, AiffError>(
            ms.take(n).map_values(|m: MarkerData| stored_marker(m)),
        ),
    decreases n - i,
{
    let f = |m: MarkerData| stored_marker(m);
    let e = d.drop_last();
    let m = ms[i];
    let name = stored_name(m.name);
    let seen = ms.take(i).map_values(f);
    lemma_lies_split(d, at, marker_bytes(m), markers_bytes(ms, i + 1, n));
    lemma_marker_back(d, at, m);
    lemma_marker_absent(seen, m.id, 0);
    assert(marker_bytes(m).len() == 7 + name.len() + (1 + name.len() as int) % 2);
    assert(seen.push(stored_marker(m)) =~= ms.take(i + 1).map_values(f));
    if i + 1 < n {
        assert(markers_bytes(ms, i + 1, n).len() >= marker_bytes(ms[i + 1]).len() >= 7);
        lemma_markers_unpadded(ms, n, d, at + marker_bytes(m).len(), i + 1);
    }
    let tail = d.subrange(at + 6, d.len() as int);
    let short = e.subrange(at + 6, e.len() as int);
    assert(at + 7 + name.len() <= e.len());
    assert(be16(e, at) == be16(d, at));
    assert(be32(e, at + 2) == be32(d, at + 2));
    assert(tail[0] == name.len()) by {
        lemma_lies_byte(d, at, marker_bytes(m), 6);
    }
    assert(short[0] == tail[0]);
    assert(short.subrange(1, 1 + short[0]) =~= tail.subrange(1, 1 + tail[0]));
    let taken = if i + 1 < n {
        marker_bytes(m).len() - 6
    } else {
        1int + name.len()
    };
    assert(marker_name(short) == Ok::<(Seq<char>, int), AiffError>(
        (stored_marker(m).name, taken),
    ));
    assert(markers_read(e, at + 6 + taken, n - i - 1, seen.push(stored_marker(m))) == Ok::<
        Seq<MarkerData>,
        AiffError,
    >(ms.take(n).map_values(f)));
}

/// Markers that are written are read back: the first 65535 of them, each with as much of its
/// name as 255 bytes hold, and thus all of them, unchanged, where that is enough. So they are
/// where the pad byte behind the last of them is missing.
pub proof fn law_marker_round_trip(ms: Seq<MarkerData>)
    requires
        ids_distinct(ms),
    ensures
        marker_chunk(marker_chunk_bytes(ms)) == Ok::<Seq<MarkerData>, AiffError>(
            stored_markers(ms),
        ),
        ms.len() > 0 && stored_name(ms[counted(ms.len() as int) - 1].name).len() % 2 == 0
            ==> marker_chunk(marker_chunk_bytes(ms).drop_last()) == Ok::<
            Seq<MarkerData>,
            AiffError,
        >(stored_markers(ms)),
        ms.len() <= 0xFFFF && (forall|i: int|
            0 <= i < ms.len() ==> encode_utf8((#[trigger] ms[i]).name).len() <= 255)
            ==> stored_markers(ms) == ms,
{
    let n = counted(ms.len() as int);
    let d = marker_chunk_bytes(ms);
    assert(lies_at(d, 0, be16_bytes(n as u16) + markers_bytes(ms, 0, n))) by {
        assert(d.subrange(0, d.len() as int) =~= d);
    }
    lemma_lies_split(d, 0, be16_bytes(n as u16), markers_bytes(ms, 0, n));
    lemma_lies_be16(d, 0, n as u16);
    assert(ms.take(0).map_values(|m: MarkerData| stored_marker(m)) =~= Seq::empty());
    lemma_markers_back(ms, n, d, 2, 0);
    if ms.len() > 0 && stored_name(ms[n - 1].name).len() % 2 == 0 {
        lemma_markers_unpadded(ms, n, d, 2, 0);
        assert(be16(d.drop_last(), 0) == be16(d, 0));
    }
    if ms.len() <= 0xFFFF && (forall|i: int|
        0 <= i < ms.len() ==> encode_utf8((#[trigger] ms[i]).name).len() <= 255) {
        assert forall|i: int| 0 <= i < ms.len() implies stored_marker(#[trigger] ms[i])
            == ms[i] by {
            encode_utf8_valid_utf8(ms[i].name);
            encode_utf8_decode_utf8(ms[i].name);
        }
        assert(stored_markers(ms) =~= ms);
    }
}

} // verus!
