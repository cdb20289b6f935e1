//! Reading a FORM ANIM.
//!
//! The first FORM ILBM in it is a whole picture. Every later one carries an animation
//! header and a payload that modifies an earlier frame's bitmap.

use vstd::prelude::*;
use crate::anim::anhd::{anhd_read, Anhd};
use crate::anim::delta::{apply_delta, delta_applied};
use crate::bitmap::{rows, shaped};
use crate::bytes::{id_at, read_be32, read_id, same_id};
use crate::chunk::{
    after_chunk, body_at, find_group_end, group_end, read_chunk_header, read_form_type, size_at,
    ByteReader, ChunkHeader, GROUP_FORM,
};
use crate::error::{IffError, Reason};
use crate::ilbm::Bmhd;
use crate::ilbm::colour::Camg;
use crate::ilbm::file::{ilbm_read, lemma_planar_shaped, parse_ilbm, ID_BODY, TYPE_ILBM};
use crate::ilbm::image::{planar_to_rgba, rgba_to_planar, shown, IlbmImage, Picture};

verus! {

/// Type of a FORM that holds an animation.
pub const TYPE_ANIM: [u8; 4] = [0x41, 0x4E, 0x49, 0x4D];

/// Id of the animation header.
pub const ID_ANHD: [u8; 4] = [0x41, 0x4E, 0x48, 0x44];

/// Id of a delta payload.
pub const ID_DLTA: [u8; 4] = [0x44, 0x4C, 0x54, 0x41];

/// A decoded animation.
#[derive(Clone, Debug)]
pub struct AnimImage {
    /// Width of all frames.
    pub width: u32,
    /// Height of all frames.
    pub height: u32,
    /// The frames; the first one is the leading picture.
    pub frames: Vec<IlbmImage>,
}

/// A decoded animation with its timing.
pub struct TimedAnim {
    /// The animation.
    pub image: AnimImage,
    /// The `rel_time` of every frame's header; zero for the leading picture, which has none.
    pub rel_times: Vec<u32>,
}

impl TimedAnim {
    /// It holds these frames at these times, few enough for every time to be counted.
    pub open spec fn holds(&self, reel: Reel) -> bool {
        &&& pictures(self.image.frames@) == reel.frames
        &&& self.rel_times@ == reel.times
        &&& reel.times.len() == reel.frames.len()
        &&& 0 < reel.frames.len() < 0x2000_0000
        &&& self.image.width == reel.frames[0].bmhd.width
        &&& self.image.height == reel.frames[0].bmhd.height
    }
}

/// The pictures of a list of frames.
pub open spec fn pictures(frames: Seq<IlbmImage>) -> Seq<Picture> {
    Seq::new(frames.len(), |i: int| frames[i]@)
}

/// Whether the data starts like a FORM ANIM: 100 if so, otherwise 0.
pub fn probe(buf: &[u8]) -> (score: u8)
    ensures
        score == if buf@.len() >= 12 && id_at(buf@, 0) == GROUP_FORM && id_at(buf@, 8)
            == TYPE_ANIM {
            100int
        } else {
            0
        },
{
    if buf.len() >= 12 && same_id(read_id(buf, 0), GROUP_FORM) && same_id(
        read_id(buf, 8),
        TYPE_ANIM,
    ) {
        100
    } else {
        0
    }
}

/// What has been found of a delta frame.
pub struct DeltaParts {
    /// The animation header.
    pub anhd: Option<Anhd>,
    /// The payload.
    pub delta: Option<Seq<u8>>,
}

/// A chunk of a delta frame is taken in; a payload is called `BODY` or `DLTA`, and other
/// chunks are passed over.
pub open spec fn delta_part_added(parts: DeltaParts, id: [u8; 4], body: Seq<u8>) -> Result<
    DeltaParts,
    IffError,
> {
    if id == ID_ANHD {
        match anhd_read(body) {
            Ok(a) => Ok(DeltaParts { anhd: Some(a), ..parts }),
            Err(e) => Err(e),
        }
    } else if id == ID_BODY || id == ID_DLTA {
        Ok(DeltaParts { delta: Some(body), ..parts })
    } else {
        Ok(parts)
    }
}

/// The chunks of a delta frame from `at` on, up to `end`.
pub open spec fn delta_parts_read(d: Seq<u8>, end: int, at: int, parts: DeltaParts) -> Result<
    DeltaParts,
    IffError,
>
    decreases end + 1 - at,
{
    if at + 8 > end {
        Ok(parts)
    } else if at + 8 + size_at(d, at) > end {
        Err(IffError::invalid("ANIM: inner chunk overruns FORM ILBM"))
    } else {
        match delta_part_added(parts, id_at(d, at), body_at(d, at)) {
            Ok(next) => delta_parts_read(d, end, after_chunk(d, at), next),
            Err(e) => Err(e),
        }
    }
}

/// The frames found so far, with their bitmaps.
#[verifier::ext_equal]
pub struct Reel {
    /// What the frames show.
    pub frames: Seq<Picture>,
    /// The planar form of every frame.
    pub planar: Seq<Seq<Seq<u8>>>,
    /// The `rel_time` of every frame's header; zero for the leading picture.
    pub times: Seq<u32>,
}

/// No frames yet.
pub open spec fn empty_reel() -> Reel {
    Reel { frames: Seq::empty(), planar: Seq::empty(), times: Seq::empty() }
}

/// Which frame's bitmap frame `n` modifies: `interleave` frames back, two where that is
/// zero, and the first frame where there is none so far back.
pub open spec fn source_frame(a: Anhd, n: int) -> int {
    let back: int = if a.interleave == 0 {
        2
    } else {
        a.interleave as int
    };
    if n >= back {
        n - back
    } else {
        0
    }
}

/// A delta frame is added.
pub open spec fn delta_frame_added(reel: Reel, a: Anhd, delta: Seq<u8>) -> Result<Reel, IffError> {
    let seed = reel.frames[0];
    let src = reel.planar[source_frame(a, reel.frames.len() as int)];
    match delta_applied(a, delta, seed.bmhd, src) {
        (rs, Err(e)) => Err(e),
        (rs, Ok(())) => match shown(rs, seed.bmhd, seed.palette, seed.camg, false) {
            Err(e) => Err(e),
            Ok(pic) => Ok(
                Reel {
                    frames: reel.frames.push(pic),
                    planar: reel.planar.push(rs),
                    times: reel.times.push(a.rel_time),
                },
            ),
        },
    }
}

/// The FORM ILBM at `at` is added.
#[verifier::opaque]
pub open spec fn frame_added(d: Seq<u8>, at: int, reel: Reel) -> Result<Reel, IffError> {
    let end = at + 8 + size_at(d, at);
    if reel.frames.len() == 0 {
        match ilbm_read(d.subrange(at, end)) {
            Err(e) => Err(e),
            Ok(pic) => Ok(
                Reel {
                    frames: reel.frames.push(pic),
                    planar: reel.planar.push(pic.planar()),
                    times: reel.times.push(0),
                },
            ),
        }
    } else {
        match delta_parts_read(d, end, at + 12, DeltaParts { anhd: None, delta: None }) {
            Err(e) => Err(e),
            Ok(parts) => match parts.anhd {
                None => Err(IffError::invalid("ANIM: delta frame missing ANHD chunk")),
                Some(a) => match parts.delta {
                    None => Err(IffError::invalid("ANIM: delta frame missing BODY/DLTA chunk")),
                    Some(delta) => delta_frame_added(reel, a, delta),
                },
            },
        }
    }
}

/// Whether a FORM ILBM starts at `at`.
pub open spec fn frame_at(d: Seq<u8>, at: int) -> bool {
    id_at(d, at) == GROUP_FORM && size_at(d, at) >= 4 && id_at(d, at + 8) == TYPE_ILBM
}

/// The chunks of the animation from `at` on, up to `end`; others than frames are passed
/// over.
pub open spec fn reel_read(d: Seq<u8>, end: int, at: int, reel: Reel) -> Result<Reel, IffError>
    decreases end + 1 - at,
{
    if at + 8 > end {
        Ok(reel)
    } else if at + 8 + size_at(d, at) > end {
        Err(IffError::Invalid(Reason::ChildOverrun { id: id_at(d, at) }))
    } else if frame_at(d, at) {
        match frame_added(d, at, reel) {
            Ok(next) => reel_read(d, end, after_chunk(d, at), next),
            Err(e) => Err(e),
        }
    } else {
        reel_read(d, end, after_chunk(d, at), reel)
    }
}

/// The frames of a FORM ANIM, with their bitmaps and times.
pub open spec fn timed_read(d: Seq<u8>) -> Result<Reel, IffError> {
    if d.len() < 12 {
        Err(IffError::invalid("ANIM: file shorter than FORM header"))
    } else if id_at(d, 0) != GROUP_FORM {
        Err(IffError::invalid("ANIM: missing FORM signature"))
    } else if id_at(d, 8) != TYPE_ANIM {
        Err(IffError::Invalid(Reason::AnimFormType { form_type: id_at(d, 8) }))
    } else {
        match reel_read(d, group_end(d), 12, empty_reel()) {
            Err(e) => Err(e),
            Ok(reel) => if reel.frames.len() == 0 {
                Err(IffError::invalid("ANIM: no ILBM frames"))
            } else {
                Ok(reel)
            },
        }
    }
}

/// The frames of a FORM ANIM.
pub open spec fn anim_read(d: Seq<u8>) -> Result<Seq<Picture>, IffError> {
    match timed_read(d) {
        Ok(reel) => Ok(reel.frames),
        Err(e) => Err(e),
    }
}

struct FoundDelta {
    anhd: Option<Anhd>,
    delta: Option<Vec<u8>>,
}

impl FoundDelta {
    spec fn view(&self) -> DeltaParts {
        DeltaParts {
            anhd: self.anhd,
            delta: match self.delta {
                Some(v) => Some(v@),
                None => None,
            },
        }
    }
}

/// Looks for the parts of the delta frame whose FORM starts at `from` and ends at `end`.
#[verifier::loop_isolation(false)]
fn find_delta(d: &[u8], from: usize, end: usize) -> (r: Result<FoundDelta, IffError>)
    requires
        from + 12 <= end <= d@.len(),
    ensures
        match delta_parts_read(
            d@,
            end as int,
            from + 12,
            DeltaParts { anhd: None, delta: None },
        ) {
            Ok(parts) => r matches Ok(found) && found.view() == parts,
            Err(e) => r matches Err(f) && f == e,
        },
{
    let mut found = FoundDelta { anhd: None, delta: None };
    let mut at: usize = from + 12;
    let ghost target = delta_parts_read(d@, end as int, at as int, found.view());
    while end - at >= 8
        invariant
            at <= end <= d@.len(),
            delta_parts_read(d@, end as int, at as int, found.view()) == target,
        decreases end - at,
    {
        let size: usize = read_be32(d, at + 4) as usize;
        if size > end - at - 8 {
            return Err(IffError::invalid("ANIM: inner chunk overruns FORM ILBM"));
        }
        let id: [u8; 4] = read_id(d, at);
        let body: &[u8] = vstd::slice::slice_subrange(d, at + 8, at + 8 + size);
        if same_id(id, ID_ANHD) {
            match Anhd::parse(body) {
                Ok(a) => {
                    found.anhd = Some(a);
                },
                Err(e) => {
                    return Err(e);
                },
            }
        } else if same_id(id, ID_BODY) || same_id(id, ID_DLTA) {
            found.delta = Some(vstd::slice::slice_to_vec(body));
        }
        let ghost next = after_chunk(d@, at as int);
        assert(delta_parts_read(d@, end as int, next, found.view()) == target);
        at += 8 + size;
        if size % 2 == 1 && at < end {
            at += 1;
        }
        assert(delta_parts_read(d@, end as int, next, found.view()) == delta_parts_read(
            d@,
            end as int,
            at as int,
            found.view(),
        ));
    }
    Ok(found)
}

/// Copies a bitmap.
fn copy_rows(planar: &Vec<Vec<u8>>) -> (out: Vec<Vec<u8>>)
    ensures
        rows(out@) == rows(planar@),
{
    let n: usize = planar.len();
    let mut out: Vec<Vec<u8>> = Vec::new();
    let mut i: usize = 0;
    while i < n
        invariant
            n == planar@.len(),
            i <= n,
            out@.len() == i,
            forall|k: int| 0 <= k < i ==> (#[trigger] out@[k])@ == planar@[k]@,
        decreases n - i,
    {
        out.push(vstd::slice::slice_to_vec(planar[i].as_slice()));
        i += 1;
    }
    assert(rows(out@) =~= rows(planar@));
    out
}

struct FoundFrames {
    frames: Vec<IlbmImage>,
    planar: Vec<Vec<Vec<u8>>>,
    times: Vec<u32>,
}

impl FoundFrames {
    spec fn view(&self) -> Reel {
        Reel {
            frames: pictures(self.frames@),
            planar: Seq::new(self.planar@.len(), |i: int| rows(self.planar@[i]@)),
            times: self.times@,
        }
    }

    /// Every frame has a bitmap of the leading picture's shape.
    spec fn valid(&self) -> bool {
        &&& self.frames@.len() == self.planar@.len() == self.times@.len()
        &&& forall|i: int|
            0 <= i < self.planar@.len() ==> shaped(
                rows((#[trigger] self.planar@[i])@),
                self.frames@[0].bmhd,
            )
    }

    fn push(&mut self, img: IlbmImage, planar: Vec<Vec<u8>>, rel_time: u32)
        requires
            old(self).valid(),
            old(self).frames@.len() == 0 ==> shaped(rows(planar@), img.bmhd),
            old(self).frames@.len() > 0 ==> shaped(rows(planar@), old(self).frames@[0].bmhd),
        ensures
            final(self).valid(),
            final(self).view() == (Reel {
                frames: old(self).view().frames.push(img@),
                planar: old(self).view().planar.push(rows(planar@)),
                times: old(self).view().times.push(rel_time),
            }),
    {
        let ghost before = self.view();
        let ghost frames0 = self.frames@;
        let ghost planar0 = self.planar@;
        self.frames.push(img);
        self.planar.push(planar);
        self.times.push(rel_time);
        assert(self.view().frames =~= before.frames.push(img@));
        assert(self.view().planar =~= before.planar.push(rows(planar@)));
        assert forall|i: int| 0 <= i < self.planar@.len() implies shaped(
            rows((#[trigger] self.planar@[i])@),
            self.frames@[0].bmhd,
        ) by {
            if i < planar0.len() {
                assert(self.planar@[i] == planar0[i]);
                assert(self.frames@[0] == frames0[0]);
            }
        }
    }

    /// Adds the delta frame of the given header and payload.
    fn add_delta(&mut self, anhd: &Anhd, delta: &[u8]) -> (r: Result<(), IffError>)
        requires
            old(self).valid(),
            old(self).frames@.len() > 0,
        ensures
            match delta_frame_added(old(self).view(), *anhd, delta@) {
                Ok(reel) => r is Ok && final(self).view() == reel && final(self).valid(),
                Err(e) => r == Err::<(), IffError>(e),
            },
    {
        let n: usize = self.frames.len();
        let back: usize = if anhd.interleave == 0 {
            2
        } else {
            anhd.interleave as usize
        };
        let src: usize = if n >= back {
            n - back
        } else {
            0
        };
        let bmhd: Bmhd = self.frames[0].bmhd;
        let camg: Camg = self.frames[0].camg;
        assert(shaped(rows(self.planar@[src as int]@), bmhd));
        let mut planar: Vec<Vec<u8>> = copy_rows(&self.planar[src]);
        match apply_delta(anhd, planar.as_mut_slice(), delta, &bmhd) {
            Ok(()) => {},
            Err(e) => {
                return Err(e);
            },
        }
        match planar_to_rgba(
            planar.as_slice(),
            &bmhd,
            self.frames[0].palette.as_slice(),
            camg,
            false,
        ) {
            Ok(img) => {
                self.push(img, planar, anhd.rel_time);
                Ok(())
            },
            Err(e) => Err(e),
        }
    }

    /// Adds the FORM ILBM that lies between `at` and `end`.
    fn add_frame(&mut self, d: &[u8], at: usize, end: usize) -> (r: Result<(), IffError>)
        requires
            old(self).valid(),
            at + 12 <= end <= d@.len(),
            end == at + 8 + size_at(d@, at as int),
        ensures
            match frame_added(d@, at as int, old(self).view()) {
                Ok(reel) => r is Ok && final(self).view() == reel && final(self).valid(),
                Err(e) => r == Err::<(), IffError>(e),
            },
            r is Ok ==> final(self).view().frames.len() == old(self).view().frames.len() + 1,
    {
        reveal(frame_added);
        if self.frames.len() == 0 {
            match parse_ilbm(vstd::slice::slice_subrange(d, at, end)) {
                Ok(img) => {
                    proof {
                        lemma_ilbm_pixels(d@.subrange(at as int, end as int));
                        lemma_planar_shaped(img@);
                    }
                    let planar: Vec<Vec<u8>> = rgba_to_planar(&img);
                    self.push(img, planar, 0);
                    Ok(())
                },
                Err(e) => Err(e),
            }
        } else {
            let found: FoundDelta = match find_delta(d, at, end) {
                Ok(found) => found,
                Err(e) => {
                    return Err(e);
                },
            };
            let anhd: Anhd = match found.anhd {
                Some(a) => a,
                None => {
                    return Err(IffError::invalid("ANIM: delta frame missing ANHD chunk"));
                },
            };
            match found.delta {
                Some(delta) => self.add_delta(&anhd, delta.as_slice()),
                None => Err(IffError::invalid("ANIM: delta frame missing BODY/DLTA chunk")),
            }
        }
    }
}

/// A picture that was read has all its pixels.
proof fn lemma_ilbm_pixels(d: Seq<u8>)
    ensures
        ilbm_read(d) matches Ok(pic) ==> pic.has_pixels(),
{
    reveal(ilbm_read);
}

/// Reads a FORM ANIM with its timing.
#[verifier::loop_isolation(false)]
pub fn parse_timed(bytes: &[u8]) -> (r: Result<TimedAnim, IffError>)
    ensures
        match timed_read(bytes@) {
            Ok(reel) => r matches Ok(anim) && anim.holds(reel),
            Err(e) => r matches Err(f) && f == e,
        },
{
    if bytes.len() < 12 {
        return Err(IffError::invalid("ANIM: file shorter than FORM header"));
    }
    if !same_id(read_id(bytes, 0), GROUP_FORM) {
        return Err(IffError::invalid("ANIM: missing FORM signature"));
    }
    let form_type: [u8; 4] = read_id(bytes, 8);
    if !same_id(form_type, TYPE_ANIM) {
        return Err(IffError::Invalid(Reason::AnimFormType { form_type: form_type }));
    }
    let end: usize = find_group_end(bytes);
    let mut found = FoundFrames { frames: Vec::new(), planar: Vec::new(), times: Vec::new() };
    let mut at: usize = 12;
    let ghost start = empty_reel();
    assert(found.view() =~= start);
    let ghost target = reel_read(bytes@, end as int, 12, start);
    if end >= 12 {
        while end - at >= 8
            invariant
                12 <= at <= end <= bytes@.len(),
                found.valid(),
                8 * found.frames@.len() + 12 <= at,
                reel_read(bytes@, end as int, at as int, found.view()) == target,
            decreases end - at,
        {
            let size: usize = read_be32(bytes, at + 4) as usize;
            let id: [u8; 4] = read_id(bytes, at);
            if size > end - at - 8 {
                return Err(IffError::Invalid(Reason::ChildOverrun { id: id }));
            }
            if same_id(id, GROUP_FORM) && size >= 4 && same_id(read_id(bytes, at + 8), TYPE_ILBM) {
                match found.add_frame(bytes, at, at + 8 + size) {
                    Ok(()) => {},
                    Err(e) => {
                        return Err(e);
                    },
                }
            }
            let ghost next = after_chunk(bytes@, at as int);
            assert(reel_read(bytes@, end as int, next, found.view()) == target);
            at += 8 + size;
            if size % 2 == 1 && at < end {
                at += 1;
            }
            assert(reel_read(bytes@, end as int, next, found.view()) == reel_read(
                bytes@,
                end as int,
                at as int,
                found.view(),
            ));
        }
    }
    if found.frames.len() == 0 {
        return Err(IffError::invalid("ANIM: no ILBM frames"));
    }
    let image = AnimImage {
        width: found.frames[0].bmhd.width as u32,
        height: found.frames[0].bmhd.height as u32,
        frames: found.frames,
    };
    Ok(TimedAnim { image: image, rel_times: found.times })
}

/// Reads a FORM ANIM.
pub fn parse_anim(bytes: &[u8]) -> (r: Result<AnimImage, IffError>)
    ensures
        match anim_read(bytes@) {
            Ok(frames) => {
                &&& r matches Ok(anim)
                &&& pictures(anim.frames@) == frames
                &&& anim.frames@.len() > 0
                &&& anim.width == anim.frames@[0].bmhd.width
                &&& anim.height == anim.frames@[0].bmhd.height
            },
            Err(e) => r matches Err(f) && f == e,
        },
{
    match parse_timed(bytes) {
        Ok(timed) => {
            assert(pictures(timed.image.frames@)[0] == timed.image.frames@[0]@);
            Ok(timed.image)
        },
        Err(e) => Err(e),
    }
}

/// The frames of the FORM ANIM that a stream starts with, with their bitmaps and times.
/// Nothing behind the FORM is read.
pub open spec fn timed_opened(d: Seq<u8>) -> Result<Reel, IffError> {
    if d.len() == 0 {
        Err(IffError::invalid("ANIM: empty file"))
    } else if d.len() < 8 {
        Err(IffError::invalid("IFF: truncated chunk header"))
    } else if id_at(d, 0) != GROUP_FORM {
        Err(IffError::Invalid(Reason::ExpectedForm { id: id_at(d, 0) }))
    } else if d.len() < 12 {
        Err(IffError::UnexpectedEnd)
    } else if id_at(d, 8) != TYPE_ANIM {
        Err(IffError::Invalid(Reason::NotAnim { form_type: id_at(d, 8) }))
    } else if d.len() < 8 + size_at(d, 0) {
        Err(IffError::UnexpectedEnd)
    } else {
        timed_read(d.take(8 + size_at(d, 0)))
    }
}

/// The frames of the FORM ANIM that a stream starts with.
pub open spec fn anim_opened(d: Seq<u8>) -> Result<Seq<Picture>, IffError> {
    match timed_opened(d) {
        Ok(reel) => Ok(reel.frames),
        Err(e) => Err(e),
    }
}

/// Whether a FORM ANIM has room for its type.
pub open spec fn anim_has_room(d: Seq<u8>) -> bool {
    d.len() >= 12 && id_at(d, 0) == GROUP_FORM && id_at(d, 8) == TYPE_ANIM ==> size_at(d, 0) >= 4
}

/// Reads the FORM ANIM that a stream starts with, with its timing.
pub fn open_timed(bytes: &[u8]) -> (r: Result<TimedAnim, IffError>)
    requires
        anim_has_room(bytes@),
    ensures
        match timed_opened(bytes@) {
            Ok(reel) => r matches Ok(anim) && anim.holds(reel),
            Err(e) => r matches Err(f) && f == e,
        },
{
    let mut input: ByteReader = ByteReader::new(bytes);
    assert(input.rest() =~= bytes@);
    let header: ChunkHeader = match read_chunk_header(&mut input) {
        Ok(Some(header)) => header,
        Ok(None) => {
            return Err(IffError::invalid("ANIM: empty file"));
        },
        Err(e) => {
            return Err(e);
        },
    };
    if !same_id(header.id, GROUP_FORM) {
        return Err(IffError::Invalid(Reason::ExpectedForm { id: header.id }));
    }
    assert(input.rest().len() >= 4 ==> id_at(input.rest(), 0) =~= id_at(bytes@, 8));
    let form_type: [u8; 4] = match read_form_type(&mut input) {
        Ok(form_type) => form_type,
        Err(e) => {
            return Err(e);
        },
    };
    if !same_id(form_type, TYPE_ANIM) {
        return Err(IffError::Invalid(Reason::NotAnim { form_type: form_type }));
    }
    let size: usize = header.size as usize;
    if bytes.len() - 8 < size {
        return Err(IffError::UnexpectedEnd);
    }
    let form: &[u8] = vstd::slice::slice_subrange(bytes, 0, 8 + size);
    assert(form@ =~= bytes@.take(8 + size_at(bytes@, 0)));
    parse_timed(form)
}

/// Reads the FORM ANIM that a stream starts with.
pub fn open_anim(bytes: &[u8]) -> (r: Result<AnimImage, IffError>)
    requires
        anim_has_room(bytes@),
    ensures
        match anim_opened(bytes@) {
            Ok(frames) => {
                &&& r matches Ok(anim)
                &&& pictures(anim.frames@) == frames
                &&& anim.frames@.len() > 0
                &&& anim.width == anim.frames@[0].bmhd.width
                &&& anim.height == anim.frames@[0].bmhd.height
            },
            Err(e) => r matches Err(f) && f == e,
        },
{
    match open_timed(bytes) {
        Ok(timed) => {
            assert(pictures(timed.image.frames@)[0] == timed.image.frames@[0]@);
            Ok(timed.image)
        },
        Err(e) => Err(e),
    }
}

} // verus!
