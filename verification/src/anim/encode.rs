//! Writing a FORM ANIM.

use vstd::prelude::*;
use crate::anim::anhd::{anhd_bytes, anhd_read, law_anhd_round_trip, Anhd};
use crate::anim::column::holds_colour;
use crate::anim::delta::delta_applied;
use crate::anim::file::{
    anim_read, delta_parts_read, empty_reel, frame_added, frame_at, pictures, reel_read,
    source_frame, timed_read, DeltaParts, ID_ANHD, ID_DLTA, Reel, TYPE_ANIM,
};
use crate::anim::flat::colour_shaped;
use crate::anim::op1::{
    encode_op1_body, full_mask, law_op1_round_trip, op1_encoded, op1_full_plane_mask,
};
use crate::anim::op23::{encode_op23_body, law_op23_round_trip, lemma_op23_short, op23_encoded};
use crate::anim::op4::{encode_op4_body, law_op4_round_trip, op4_encoded};
use crate::anim::op5::{encode_op5_body, law_op5_round_trip, lemma_op5_short, op5_encoded};
use crate::anim::op7::{encode_op7_body, item_size, law_op7_round_trip, op7_encoded};
use crate::bitmap::{lemma_line_bounds, line_of, merged, plane_of, rows, shaped};
use crate::bytes::{be32_bytes, id_at, lemma_lies_byte, lemma_lies_split, lies_at, push_all, viewed};
use crate::chunk::{
    after_chunk, body_at, framed, group_bytes, group_end, lemma_framed, lemma_group, lemma_header,
    make_group, pad_of, push_chunk, push_header, size_at, size_field, to_size_field, GROUP_FORM,
};
use crate::error::{IffError, Reason};
use crate::ilbm::{Bmhd, Masking};
use crate::ilbm::body::{encode_rows, law_body_round_trip, stored_rows};
use crate::ilbm::file::{
    encode_ilbm, ilbm_bytes, ilbm_chunks, ilbm_read, law_ilbm_round_trip, lemma_planar_shaped,
    ID_BODY, TYPE_ILBM,
};
use crate::ilbm::image::{law_planar_round_trip, rgba_to_planar, IlbmImage, Picture};
use vstd::arithmetic::power2::{lemma2_to64, pow2};

verus! {

/// How the frames behind the first one are stored.
#[derive(Clone, Copy, Debug, PartialEq, Eq, Structural)]
pub enum DeltaMethod {
    /// Whole bitmaps, operation 0.
    Full,
    /// Differences of bitmaps, operation 1.
    Xor,
    /// Changed words of a plane, operation 2 (long) or 3 (short).
    Words {
        /// Whether words are four bytes wide instead of two.
        long_data: bool,
    },
    /// Changed words of a column, operation 4.
    Generalized {
        /// Whether words are four bytes wide instead of two.
        long_data: bool,
    },
    /// Changed bytes of a column, operation 5.
    ByteColumns,
    /// Changed words of a column with opcodes and data apart, operation 7.
    WordColumns {
        /// Whether words are four bytes wide instead of two.
        long_data: bool,
    },
}

impl DeltaMethod {
    /// The operation that headers name.
    #[verifier::allow_in_spec]
    pub fn operation(self) -> u8
        returns
            (match self {
                DeltaMethod::Full => 0u8,
                DeltaMethod::Xor => 1u8,
                DeltaMethod::Words { long_data } => if long_data {
                    2u8
                } else {
                    3u8
                },
                DeltaMethod::Generalized { .. } => 4u8,
                DeltaMethod::ByteColumns => 5u8,
                DeltaMethod::WordColumns { .. } => 7u8,
            }),
    {
        match self {
            DeltaMethod::Full => 0,
            DeltaMethod::Xor => 1,
            DeltaMethod::Words { long_data } => if long_data {
                2
            } else {
                3
            },
            DeltaMethod::Generalized { .. } => 4,
            DeltaMethod::ByteColumns => 5,
            DeltaMethod::WordColumns { .. } => 7,
        }
    }

    /// The operation as messages name it.
    #[verifier::allow_in_spec]
    pub fn name(self) -> &'static str
        returns
            (match self {
                DeltaMethod::Full => "0",
                DeltaMethod::Xor => "1",
                DeltaMethod::Words { long_data } => if long_data {
                    "2"
                } else {
                    "3"
                },
                DeltaMethod::Generalized { .. } => "4",
                DeltaMethod::ByteColumns => "5",
                DeltaMethod::WordColumns { .. } => "7",
            }),
    {
        match self {
            DeltaMethod::Full => "0",
            DeltaMethod::Xor => "1",
            DeltaMethod::Words { long_data } => if long_data {
                "2"
            } else {
                "3"
            },
            DeltaMethod::Generalized { .. } => "4",
            DeltaMethod::ByteColumns => "5",
            DeltaMethod::WordColumns { .. } => "7",
        }
    }

    /// The id of the payload chunk.
    pub open spec fn payload_id(self) -> [u8; 4] {
        match self {
            DeltaMethod::Full | DeltaMethod::Xor | DeltaMethod::ByteColumns => ID_BODY,
            _ => ID_DLTA,
        }
    }

    /// The header of a delta frame: the whole bitmap, one sixtieth of a second after the
    /// frame before, which it modifies.
    pub open spec fn header(self, b: Bmhd) -> Anhd {
        Anhd {
            operation: self.operation(),
            mask: if self == DeltaMethod::Xor {
                full_mask(b.n_planes as int)
            } else {
                0
            },
            w: b.width,
            h: b.height,
            x: if self == DeltaMethod::Xor {
                0
            } else {
                b.x_origin
            },
            y: if self == DeltaMethod::Xor {
                0
            } else {
                b.y_origin
            },
            abs_time: 0,
            rel_time: 1,
            interleave: 1,
            pad0: 0,
            bits: match self {
                DeltaMethod::Generalized { long_data } => if long_data {
                    25
                } else {
                    24
                },
                DeltaMethod::WordColumns { long_data } => if long_data {
                    1
                } else {
                    0
                },
                _ => 0,
            },
        }
    }

    /// The payload that turns one bitmap into the next.
    pub open spec fn payload(self, prev: Seq<Seq<u8>>, cur: Seq<Seq<u8>>, b: Bmhd) -> Result<
        Seq<u8>,
        IffError,
    > {
        match self {
            DeltaMethod::Full => Ok(full_body(cur, b)),
            DeltaMethod::Xor => op1_encoded(prev, cur, b),
            DeltaMethod::Words { long_data } => op23_encoded(prev, cur, b, long_data),
            DeltaMethod::Generalized { long_data } => op4_encoded(prev, cur, b, long_data),
            DeltaMethod::ByteColumns => op5_encoded(prev, cur, b),
            DeltaMethod::WordColumns { long_data } => op7_encoded(prev, cur, b, long_data),
        }
    }

    /// The earlier bitmap has rows that the encoder can compare with.
    pub open spec fn comparable(self, prev: Seq<Seq<u8>>, b: Bmhd) -> bool {
        prev.len() == b.height * b.rows_per_line() && b.n_planes <= 8 ==> match self {
            DeltaMethod::Words { long_data } => (b.height * b.row_len()) % item_size(
                long_data,
            ) as int == 0 ==> colour_shaped(prev, b),
            DeltaMethod::Generalized { long_data } => b.row_len() % item_size(long_data) as int
                == 0 ==> holds_colour(prev, b),
            DeltaMethod::ByteColumns => holds_colour(prev, b),
            _ => true,
        }
    }

    fn find_payload_id(self) -> (id: [u8; 4])
        ensures
            id == self.payload_id(),
    {
        match self {
            DeltaMethod::Full | DeltaMethod::Xor | DeltaMethod::ByteColumns => ID_BODY,
            _ => ID_DLTA,
        }
    }

    fn make_header(self, b: &Bmhd) -> (a: Anhd)
        ensures
            a == self.header(*b),
    {
        let xor: bool = self == DeltaMethod::Xor;
        Anhd {
            operation: self.operation(),
            mask: if xor {
                op1_full_plane_mask(b.n_planes as usize)
            } else {
                0
            },
            w: b.width,
            h: b.height,
            x: if xor {
                0
            } else {
                b.x_origin
            },
            y: if xor {
                0
            } else {
                b.y_origin
            },
            abs_time: 0,
            rel_time: 1,
            interleave: 1,
            pad0: 0,
            bits: match self {
                DeltaMethod::Generalized { long_data } => if long_data {
                    25
                } else {
                    24
                },
                DeltaMethod::WordColumns { long_data } => if long_data {
                    1
                } else {
                    0
                },
                _ => 0,
            },
        }
    }

    fn make_payload(self, prev: &[Vec<u8>], cur: &[Vec<u8>], b: &Bmhd) -> (r: Result<
        Vec<u8>,
        IffError,
    >)
        requires
            shaped(rows(cur@), *b),
            self.comparable(rows(prev@), *b),
        ensures
            viewed(r) == self.payload(rows(prev@), rows(cur@), *b),
    {
        match self {
            DeltaMethod::Full => Ok(encode_rows(cur, b)),
            DeltaMethod::Xor => encode_op1_body(prev, cur, b),
            DeltaMethod::Words { long_data } => encode_op23_body(prev, cur, b, long_data),
            DeltaMethod::Generalized { long_data } => encode_op4_body(prev, cur, b, long_data),
            DeltaMethod::ByteColumns => encode_op5_body(prev, cur, b),
            DeltaMethod::WordColumns { long_data } => encode_op7_body(prev, cur, b, long_data),
        }
    }
}

/// All rows of a bitmap, stored as its header says.
pub open spec fn full_body(rs: Seq<Seq<u8>>, b: Bmhd) -> Seq<u8> {
    stored_rows(rs, b, 0)
}

/// Stores all rows of a picture's planar form as its header says.
pub fn encode_full_body(image: &IlbmImage) -> (out: Result<Vec<u8>, IffError>)
    requires
        image@.has_pixels(),
    ensures
        viewed(out) == Ok::<Seq<u8>, IffError>(full_body(image@.planar(), image.bmhd)),
{
    proof {
        lemma_planar_shaped(image@);
    }
    let planar: Vec<Vec<u8>> = rgba_to_planar(image);
    Ok(encode_rows(planar.as_slice(), &image.bmhd))
}

/// The contents of a delta frame.
pub open spec fn delta_frame(m: DeltaMethod, b: Bmhd, body: Seq<u8>) -> Seq<u8> {
    let n = size_field(body.len() as int);
    TYPE_ILBM@ + framed(ID_ANHD, anhd_bytes(m.header(b), n)) + (m.payload_id()@ + be32_bytes(n)
        + body)
}

/// The delta frames from frame `i` on.
pub open spec fn deltas_encoded(m: DeltaMethod, pics: Seq<Picture>, i: int) -> Result<
    Seq<u8>,
    IffError,
>
    decreases pics.len() - i,
{
    if i >= pics.len() {
        Ok(Seq::empty())
    } else {
        let b = pics[i].bmhd;
        match m.payload(pics[i - 1].planar(), pics[i].planar(), b) {
            Err(e) => Err(e),
            Ok(body) => match deltas_encoded(m, pics, i + 1) {
                Err(e) => Err(e),
                Ok(rest) => Ok(framed(GROUP_FORM, delta_frame(m, b, body)) + rest),
            },
        }
    }
}

/// The encoder can work on the frames from `i` on, as far as it comes.
pub open spec fn deltas_possible(m: DeltaMethod, pics: Seq<Picture>, i: int) -> bool
    decreases pics.len() - i,
{
    i < pics.len() ==> {
        let b = pics[i].bmhd;
        let prev = pics[i - 1].planar();
        &&& pics[i].has_pixels()
        &&& m.comparable(prev, b)
        &&& m.payload(prev, pics[i].planar(), b) is Ok ==> deltas_possible(m, pics, i + 1)
    }
}

/// That an animation needs a frame.
pub open spec fn no_frames(m: DeltaMethod) -> IffError {
    match m {
        DeltaMethod::Full => IffError::invalid("ANIM encode: at least one frame required"),
        _ => IffError::Invalid(Reason::NoFrames { op: m.name() }),
    }
}

/// The first frame can be written as a picture.
pub open spec fn plane_fault(m: DeltaMethod, b: Bmhd) -> Option<IffError> {
    if b.n_planes > 8 && m != DeltaMethod::Full && m != DeltaMethod::Xor {
        Some(IffError::Unsupported(Reason::TooManyPlanes { op: m.name(), planes: b.n_planes }))
    } else if b.n_planes == 0 || b.n_planes > 8 {
        Some(IffError::Unsupported(Reason::PlaneCount { planes: b.n_planes }))
    } else {
        None
    }
}

/// The FORM ANIM of a list of frames.
pub open spec fn anim_encoded(m: DeltaMethod, pics: Seq<Picture>) -> Result<Seq<u8>, IffError> {
    if pics.len() == 0 {
        Err(no_frames(m))
    } else {
        match plane_fault(m, pics[0].bmhd) {
            Some(e) => Err(e),
            None => match deltas_encoded(m, pics, 1) {
                Err(e) => Err(e),
                Ok(rest) => {
                    let leading = ilbm_bytes(pics[0]);
                    Ok(
                        group_bytes(
                            GROUP_FORM,
                            TYPE_ANIM,
                            leading + pad_of(leading.len() as int) + rest,
                        ),
                    )
                },
            },
        }
    }
}

/// The encoder can work on the frames, as far as it comes.
pub open spec fn anim_possible(m: DeltaMethod, pics: Seq<Picture>) -> bool {
    pics.len() > 0 && plane_fault(m, pics[0].bmhd) is None ==> pics[0].has_pixels()
        && deltas_possible(m, pics, 1)
}

/// Appends a delta frame.
fn push_delta(out: &mut Vec<u8>, m: DeltaMethod, b: &Bmhd, body: &[u8])
    ensures
        final(out)@ == old(out)@ + framed(GROUP_FORM, delta_frame(m, *b, body@)),
{
    let n: u32 = to_size_field(body.len());
    let header: Anhd = m.make_header(b);
    let fields: [u8; 40] = header.write(n);
    let mut inner: Vec<u8> = Vec::new();
    push_all(&mut inner, &TYPE_ILBM);
    push_chunk(&mut inner, ID_ANHD, &fields);
    push_header(&mut inner, m.find_payload_id(), n);
    push_all(&mut inner, body);
    assert(inner@ =~= delta_frame(m, *b, body@));
    push_chunk(out, GROUP_FORM, inner.as_slice());
}

/// Writes a FORM ANIM: the first frame as a picture, every other one as a step from the
/// frame before it.
#[verifier::loop_isolation(false)]
#[verifier::spinoff_prover]
#[verifier::rlimit(60)]
pub fn encode_anim(frames: &[IlbmImage], m: DeltaMethod) -> (r: Result<Vec<u8>, IffError>)
    requires
        anim_possible(m, pictures(frames@)),
    ensures
        viewed(r) == anim_encoded(m, pictures(frames@)),
{
    let ghost pics = pictures(frames@);
    if frames.len() == 0 {
        return if m == DeltaMethod::Full {
            Err(IffError::invalid("ANIM encode: at least one frame required"))
        } else {
            Err(IffError::Invalid(Reason::NoFrames { op: m.name() }))
        };
    }
    let planes: u8 = frames[0].bmhd.n_planes;
    if planes > 8 && m != DeltaMethod::Full && m != DeltaMethod::Xor {
        return Err(IffError::Unsupported(Reason::TooManyPlanes { op: m.name(), planes: planes }));
    }
    assert(pics[0] == frames@[0]@);
    let mut chunks: Vec<u8> = match encode_ilbm(&frames[0]) {
        Ok(leading) => leading,
        Err(e) => {
            return Err(e);
        },
    };
    let ghost leading = ilbm_bytes(pics[0]);
    if chunks.len() % 2 == 1 {
        chunks.push(0);
    }
    let ghost start = leading + pad_of(leading.len() as int);
    assert(chunks@ =~= start);
    let mut prev: Vec<Vec<u8>> = rgba_to_planar(&frames[0]);
    let mut i: usize = 1;
    let total: usize = frames.len();
    let ghost target = deltas_encoded(m, pics, 1);
    let ghost mut done: Seq<u8> = Seq::empty();
    assert(start + Seq::<u8>::empty() =~= start);
    assert(target == match deltas_encoded(m, pics, 1) {
        Ok(rest) => Ok(Seq::<u8>::empty() + rest),
        Err(e) => Err(e),
    }) by {
        if let Ok(rest) = target {
            assert(Seq::<u8>::empty() + rest =~= rest);
        }
    }
    while i < total
        invariant
            1 <= i <= total,
            chunks@ == start + done,
            rows(prev@) == pics[i - 1].planar(),
            deltas_possible(m, pics, i as int),
            target == match deltas_encoded(m, pics, i as int) {
                Ok(rest) => Ok(done + rest),
                Err(e) => Err(e),
            },
        decreases total - i,
    {
        let bmhd: Bmhd = frames[i].bmhd;
        assert(pics[i as int] == frames@[i as int]@);
        let cur: Vec<Vec<u8>> = rgba_to_planar(&frames[i]);
        proof {
            lemma_planar_shaped(pics[i as int]);
        }
        let body: Vec<u8> = match m.make_payload(prev.as_slice(), cur.as_slice(), &bmhd) {
            Ok(body) => body,
            Err(e) => {
                return Err(e);
            },
        };
        push_delta(&mut chunks, m, &bmhd, body.as_slice());
        proof {
            let frame = framed(GROUP_FORM, delta_frame(m, bmhd, body@));
            assert(chunks@ =~= start + (done + frame));
            if let Ok(rest) = deltas_encoded(m, pics, i + 1) {
                assert(done + (frame + rest) =~= (done + frame) + rest);
            }
            done = done + frame;
        }
        prev = cur;
        i += 1;
    }
    assert(done + Seq::<u8>::empty() =~= done);
    Ok(make_group(GROUP_FORM, TYPE_ANIM, chunks.as_slice()))
}

/// Writes a FORM ANIM whose frames are whole bitmaps, operation 0.
pub fn encode_anim_op0(frames: &[IlbmImage]) -> (r: Result<Vec<u8>, IffError>)
    requires
        anim_possible(DeltaMethod::Full, pictures(frames@)),
    ensures
        viewed(r) == anim_encoded(DeltaMethod::Full, pictures(frames@)),
{
    encode_anim(frames, DeltaMethod::Full)
}

/// Writes a FORM ANIM whose frames are differences, operation 1.
pub fn encode_anim_op1(frames: &[IlbmImage]) -> (r: Result<Vec<u8>, IffError>)
    requires
        anim_possible(DeltaMethod::Xor, pictures(frames@)),
    ensures
        viewed(r) == anim_encoded(DeltaMethod::Xor, pictures(frames@)),
{
    encode_anim(frames, DeltaMethod::Xor)
}

/// Writes a FORM ANIM of long deltas, operation 2.
pub fn encode_anim_op2(frames: &[IlbmImage]) -> (r: Result<Vec<u8>, IffError>)
    requires
        anim_possible(DeltaMethod::Words { long_data: true }, pictures(frames@)),
    ensures
        viewed(r) == anim_encoded(DeltaMethod::Words { long_data: true }, pictures(frames@)),
{
    encode_anim(frames, DeltaMethod::Words { long_data: true })
}

/// Writes a FORM ANIM of short deltas, operation 3.
pub fn encode_anim_op3(frames: &[IlbmImage]) -> (r: Result<Vec<u8>, IffError>)
    requires
        anim_possible(DeltaMethod::Words { long_data: false }, pictures(frames@)),
    ensures
        viewed(r) == anim_encoded(DeltaMethod::Words { long_data: false }, pictures(frames@)),
{
    encode_anim(frames, DeltaMethod::Words { long_data: false })
}

/// Writes a FORM ANIM of generalized deltas, operation 4.
pub fn encode_anim_op4(frames: &[IlbmImage], long_data: bool) -> (r: Result<Vec<u8>, IffError>)
    requires
        anim_possible(DeltaMethod::Generalized { long_data: long_data }, pictures(frames@)),
    ensures
        viewed(r) == anim_encoded(
            DeltaMethod::Generalized { long_data: long_data },
            pictures(frames@),
        ),
{
    encode_anim(frames, DeltaMethod::Generalized { long_data: long_data })
}

/// Writes a FORM ANIM of byte vertical deltas, operation 5.
pub fn encode_anim_op5(frames: &[IlbmImage]) -> (r: Result<Vec<u8>, IffError>)
    requires
        anim_possible(DeltaMethod::ByteColumns, pictures(frames@)),
    ensures
        viewed(r) == anim_encoded(DeltaMethod::ByteColumns, pictures(frames@)),
{
    encode_anim(frames, DeltaMethod::ByteColumns)
}

/// Writes a FORM ANIM of short or long vertical deltas, operation 7.
pub fn encode_anim_op7(frames: &[IlbmImage], long_data: bool) -> (r: Result<Vec<u8>, IffError>)
    requires
        anim_possible(DeltaMethod::WordColumns { long_data: long_data }, pictures(frames@)),
    ensures
        viewed(r) == anim_encoded(
            DeltaMethod::WordColumns { long_data: long_data },
            pictures(frames@),
        ),
{
    encode_anim(frames, DeltaMethod::WordColumns { long_data: long_data })
}

/// Two frames have the same mask rows, if any.
pub open spec fn same_mask(prev: Picture, cur: Picture) -> bool {
    cur.bmhd.masking == Masking::HasMask ==> forall|y: int, x: int|
        0 <= y < cur.bmhd.height && 0 <= x < cur.bmhd.width ==> prev.alpha(y, x)
            == #[trigger] cur.alpha(y, x)
}

impl DeltaMethod {
    /// The method can say what differs between two frames: only whole bitmaps and
    /// differences have mask rows.
    pub open spec fn can_say(self, prev: Picture, cur: Picture) -> bool {
        match self {
            DeltaMethod::Full | DeltaMethod::Xor => true,
            _ => same_mask(prev, cur),
        }
    }

    /// The method can say what differs between frame `i` and that before it.
    pub open spec fn can_step(self, pics: Seq<Picture>, i: int) -> bool {
        self.can_say(pics[i - 1], pics[i])
    }
}

/// With the same mask rows, the colour planes are all that differs.
proof fn lemma_same_mask(prev: Picture, cur: Picture)
    requires
        prev.bmhd == cur.bmhd,
        same_mask(prev, cur),
    ensures
        merged(prev.planar(), cur.planar(), cur.bmhd, cur.bmhd.n_planes as int) == cur.planar(),
{
    let b = cur.bmhd;
    let p = prev.planar();
    let c = cur.planar();
    let m = merged(p, c, b, b.n_planes as int);
    assert forall|i: int| 0 <= i < c.len() implies m[i] == c[i] by {
        lemma_line_bounds(b, i);
        let y = line_of(b, i);
        if plane_of(b, i) >= b.n_planes {
            assert(prev.alphas(y) =~= cur.alphas(y)) by {
                assert forall|x: int| 0 <= x < b.width implies prev.alphas(y)[x]
                    == cur.alphas(y)[x] by {
                    assert(prev.alpha(y, x) == cur.alpha(y, x));
                }
            }
        }
    }
    assert(m =~= c);
}

/// A payload turns the earlier frame's bitmap into the later one's.
#[verifier::spinoff_prover]
#[verifier::rlimit(40)]
proof fn lemma_payload_back(m: DeltaMethod, prev: Picture, cur: Picture, body: Seq<u8>)
    requires
        prev.bmhd == cur.bmhd,
        cur.bmhd.n_planes <= 8,
        m.can_say(prev, cur),
        m.payload(prev.planar(), cur.planar(), cur.bmhd) == Ok::<Seq<u8>, IffError>(body),
        body.len() <= u32::MAX,
    ensures
        delta_applied(m.header(cur.bmhd), body, cur.bmhd, prev.planar()) == (
            cur.planar(),
            Ok::<(), IffError>(()),
        ),
{
    reveal(delta_applied);
    let b = cur.bmhd;
    let p = prev.planar();
    let c = cur.planar();
    lemma_planar_shaped(prev);
    lemma_planar_shaped(cur);
    match m {
        DeltaMethod::Full => {
            law_body_round_trip(p, c, b, "ANIM op 0: short BODY");
        },
        DeltaMethod::Xor => {
            law_op1_round_trip(m.header(b), p, c, b, body);
        },
        DeltaMethod::Words { long_data } => {
            lemma_same_mask(prev, cur);
            lemma_op23_short(p, c, b, item_size(long_data) as int);
            law_op23_round_trip(p, c, b, long_data, body);
        },
        DeltaMethod::Generalized { long_data } => {
            lemma_same_mask(prev, cur);
            law_op4_round_trip(p, c, b, m.header(b).bits, long_data, body);
        },
        DeltaMethod::ByteColumns => {
            lemma_same_mask(prev, cur);
            lemma_op5_short(p, c, b);
            law_op5_round_trip(p, c, b, body);
        },
        DeltaMethod::WordColumns { long_data } => {
            lemma_same_mask(prev, cur);
            law_op7_round_trip(p, c, b, long_data, body);
        },
    }
}

proof fn lemma_ids()
    ensures
        ID_BODY != ID_ANHD,
        ID_DLTA != ID_ANHD,
{
    assert(ID_BODY[0] != ID_ANHD[0]);
    assert(ID_DLTA[0] != ID_ANHD[0]);
}

/// Where the chunks of a delta frame lie.
#[verifier::spinoff_prover]
proof fn lemma_delta_layout(
    d: Seq<u8>,
    at: int,
    head: Seq<u8>,
    id: [u8; 4],
    n: u32,
    body: Seq<u8>,
)
    requires
        head.len() == 48,
        n == size_field(body.len() as int),
        lies_at(d, at, framed(GROUP_FORM, TYPE_ILBM@ + head + (id@ + be32_bytes(n) + body))),
        d.len() <= u32::MAX + 8,
    ensures
        frame_at(d, at),
        body.len() <= u32::MAX,
        size_at(d, at) == 60 + body.len(),
        at + 68 + body.len() <= d.len(),
        after_chunk(d, at) == at + framed(
            GROUP_FORM,
            TYPE_ILBM@ + head + (id@ + be32_bytes(n) + body),
        ).len(),
        lies_at(d, at + 12, head),
        id_at(d, at + 60) == id,
        size_at(d, at + 60) == body.len(),
        body_at(d, at + 60) == body,
{
    let start = id@ + be32_bytes(n);
    let inner = TYPE_ILBM@ + head + (start + body);
    assert(framed(GROUP_FORM, inner).len() >= 8 + inner.len());
    lemma_framed(d, at, GROUP_FORM, inner);
    lemma_lies_split(d, at + 8, TYPE_ILBM@ + head, start + body);
    lemma_lies_split(d, at + 8, TYPE_ILBM@, head);
    lemma_lies_split(d, at + 60, start, body);
    lemma_header(d, at + 60, id, n);
    lemma_lies_byte(d, at + 8, TYPE_ILBM@, 0);
    lemma_lies_byte(d, at + 8, TYPE_ILBM@, 1);
    lemma_lies_byte(d, at + 8, TYPE_ILBM@, 2);
    lemma_lies_byte(d, at + 8, TYPE_ILBM@, 3);
    assert(id_at(d, at + 8) =~= TYPE_ILBM);
}

/// The parts of a delta frame are found again.
proof fn lemma_delta_back(d: Seq<u8>, at: int, m: DeltaMethod, b: Bmhd, body: Seq<u8>)
    requires
        lies_at(d, at, framed(GROUP_FORM, delta_frame(m, b, body))),
        d.len() <= u32::MAX + 8,
    ensures
        frame_at(d, at),
        at + 8 + size_at(d, at) <= d.len(),
        after_chunk(d, at) == at + framed(GROUP_FORM, delta_frame(m, b, body)).len(),
        body.len() <= u32::MAX,
        delta_parts_read(
            d,
            at + 8 + size_at(d, at),
            at + 12,
            DeltaParts { anhd: None, delta: None },
        ) == Ok::<DeltaParts, IffError>(
            DeltaParts { anhd: Some(m.header(b)), delta: Some(body) },
        ),
{
    let n = size_field(body.len() as int);
    let a = m.header(b);
    let fields = anhd_bytes(a, n);
    law_anhd_round_trip(a, n);
    let head = framed(ID_ANHD, fields);
    assert(head.len() == 48);
    lemma_delta_layout(d, at, head, m.payload_id(), n, body);
    lemma_framed(d, at + 12, ID_ANHD, fields);
    lemma_delta_parts(d, at, a, fields, m.payload_id(), body);
}

/// Walking the two chunks of a delta frame.
proof fn lemma_delta_parts(
    d: Seq<u8>,
    at: int,
    a: Anhd,
    fields: Seq<u8>,
    id: [u8; 4],
    body: Seq<u8>,
)
    requires
        id == ID_BODY || id == ID_DLTA,
        anhd_read(fields) == Ok::<Anhd, IffError>(a),
        id_at(d, at + 12) == ID_ANHD,
        size_at(d, at + 12) == 40,
        body_at(d, at + 12) == fields,
        id_at(d, at + 60) == id,
        size_at(d, at + 60) == body.len(),
        body_at(d, at + 60) == body,
    ensures
        delta_parts_read(
            d,
            at + 68 + body.len(),
            at + 12,
            DeltaParts { anhd: None, delta: None },
        ) == Ok::<DeltaParts, IffError>(DeltaParts { anhd: Some(a), delta: Some(body) }),
{
    lemma_ids();
    let end = at + 68 + body.len();
    let none = DeltaParts { anhd: None, delta: None };
    let some = DeltaParts { anhd: Some(a), delta: None };
    let both = DeltaParts { anhd: Some(a), delta: Some(body) };
    assert(after_chunk(d, at + 12) == at + 60);
    assert(delta_parts_read(d, end, at + 12, none) == delta_parts_read(d, end, at + 60, some));
    assert(delta_parts_read(d, end, at + 60, some) == delta_parts_read(
        d,
        end,
        after_chunk(d, at + 60),
        both,
    ));
}

/// The frames up to `i`, with their bitmaps.
spec fn reel_of(pics: Seq<Picture>, i: int) -> Reel {
    Reel {
        frames: pics.take(i),
        planar: Seq::new(i as nat, |k: int| pics[k].planar()),
        times: Seq::new(
            i as nat,
            |k: int|
                if k == 0 {
                    0u32
                } else {
                    1u32
                },
        ),
    }
}

/// Frames that share header, palette and viewport mode, the first of which survives as a
/// picture and the others as bitmaps, every step between them being one that the method
/// can say.
pub open spec fn lossless_frames(m: DeltaMethod, pics: Seq<Picture>) -> bool {
    &&& pics.len() > 0
    &&& pics[0].lossless(true)
    &&& forall|i: int|
        0 <= i < pics.len() ==> (#[trigger] pics[i]).bmhd == pics[0].bmhd && pics[i].palette
            == pics[0].palette && pics[i].camg == pics[0].camg
    &&& forall|i: int| 1 <= i < pics.len() ==> (#[trigger] pics[i]).lossless(false)
    &&& forall|i: int| 1 <= i < pics.len() ==> #[trigger] m.can_step(pics, i)
}

proof fn lemma_reel_back(d: Seq<u8>, at: int, m: DeltaMethod, pics: Seq<Picture>, i: int, rest: Seq<u8>)
    requires
        lossless_frames(m, pics),
        1 <= i <= pics.len(),
        pics[0].bmhd.n_planes <= 8,
        deltas_encoded(m, pics, i) == Ok::<Seq<u8>, IffError>(rest),
        lies_at(d, at, rest),
        at + rest.len() == d.len(),
        d.len() <= u32::MAX + 8,
    ensures
        reel_read(d, d.len() as int, at, reel_of(pics, i)) == Ok::<Reel, IffError>(
            reel_of(pics, pics.len() as int),
        ),
    decreases pics.len() - i,
{
    let reel = reel_of(pics, i);
    if i < pics.len() {
        let b = pics[i].bmhd;
        let prev = pics[i - 1];
        let cur = pics[i];
        assert(prev.bmhd == pics[0].bmhd);
        assert(m.payload(prev.planar(), cur.planar(), b) is Ok);
        let body = m.payload(prev.planar(), cur.planar(), b)->Ok_0;
        let tail = deltas_encoded(m, pics, i + 1)->Ok_0;
        let frame = framed(GROUP_FORM, delta_frame(m, b, body));
        assert(rest == frame + tail);
        lemma_lies_split(d, at, frame, tail);
        lemma_delta_back(d, at, m, b, body);
        assert(m.can_step(pics, i));
        lemma_payload_back(m, prev, cur, body);
        law_planar_round_trip(cur, false);
        assert(reel.frames.len() == i);
        assert(reel.frames[0] == pics[0]);
        assert(source_frame(m.header(b), i) == i - 1);
        assert(reel.planar[i - 1] == prev.planar());
        let next = reel_of(pics, i + 1);
        assert(next.frames =~= reel.frames.push(cur));
        assert(next.planar =~= reel.planar.push(cur.planar()));
        assert(next.times =~= reel.times.push(1));
        assert(frame_added(d, at, reel) == Ok::<Reel, IffError>(next)) by {
            reveal(frame_added);
        }
        lemma_reel_back(d, at + frame.len(), m, pics, i + 1, tail);
    }
}

/// A picture starts like a FORM ILBM and is as long as it says.
spec fn is_picture(x: Seq<u8>) -> bool {
    &&& x.len() >= 12
    &&& id_at(x, 0) == GROUP_FORM
    &&& size_at(x, 0) == x.len() - 8
    &&& id_at(x, 8) == TYPE_ILBM
}

/// A picture inside other data is found as it was put there.
proof fn lemma_leading_back(d: Seq<u8>, at: int, x: Seq<u8>)
    requires
        lies_at(d, at, x),
        is_picture(x),
    ensures
        frame_at(d, at),
        size_at(d, at) == x.len() - 8,
        d.subrange(at, at + x.len()) == x,
{
    lemma_lies_byte(d, at, x, 0);
    lemma_lies_byte(d, at, x, 1);
    lemma_lies_byte(d, at, x, 2);
    lemma_lies_byte(d, at, x, 3);
    lemma_lies_byte(d, at, x, 4);
    lemma_lies_byte(d, at, x, 5);
    lemma_lies_byte(d, at, x, 6);
    lemma_lies_byte(d, at, x, 7);
    lemma_lies_byte(d, at, x, 8);
    lemma_lies_byte(d, at, x, 9);
    lemma_lies_byte(d, at, x, 10);
    lemma_lies_byte(d, at, x, 11);
    assert(id_at(d, at) == id_at(x, 0));
    assert(id_at(d, at + 8) == id_at(x, 8));
    assert(size_at(d, at) == size_at(x, 0));
}

/// The first frame of an animation is found again.
proof fn lemma_first_frame(d: Seq<u8>, pics: Seq<Picture>, leading: Seq<u8>)
    requires
        pics.len() > 0,
        ilbm_read(leading) == Ok::<Picture, IffError>(pics[0]),
        frame_at(d, 12),
        size_at(d, 12) == leading.len() - 8,
        12 + leading.len() <= d.len(),
        d.subrange(12, 12int + leading.len()) == leading,
    ensures
        reel_read(
            d,
            d.len() as int,
            12,
            empty_reel(),
        ) == reel_read(
            d,
            d.len() as int,
            12int + leading.len() + leading.len() as int % 2,
            reel_of(pics, 1),
        ),
{
    let start = empty_reel();
    let first = reel_of(pics, 1);
    assert(first.frames =~= start.frames.push(pics[0]));
    assert(first.planar =~= start.planar.push(pics[0].planar()));
    assert(first.times =~= start.times.push(0));
    assert(frame_added(d, 12, start) == Ok::<Reel, IffError>(first)) by {
        reveal(frame_added);
    }
    assert(after_chunk(d, 12) == 12 + leading.len() + leading.len() as int % 2);
}

/// Splitting the chunks of an animation.
proof fn lemma_anim_layout(d: Seq<u8>, leading: Seq<u8>, rest: Seq<u8>)
    requires
        lies_at(d, 12, leading + pad_of(leading.len() as int) + rest),
    ensures
        lies_at(d, 12, leading),
        lies_at(d, 12int + leading.len() + leading.len() as int % 2, rest),
        (leading + pad_of(leading.len() as int)).len() == leading.len() + leading.len() as int % 2,
{
    let pad = pad_of(leading.len() as int);
    lemma_lies_split(d, 12, leading + pad, rest);
    lemma_lies_split(d, 12, leading, pad);
}

/// The frames of an animation are found again.
proof fn lemma_frames_back(
    d: Seq<u8>,
    m: DeltaMethod,
    pics: Seq<Picture>,
    leading: Seq<u8>,
    rest: Seq<u8>,
    at: int,
)
    requires
        lossless_frames(m, pics),
        pics[0].bmhd.n_planes <= 8,
        is_picture(leading),
        ilbm_read(leading) == Ok::<Picture, IffError>(pics[0]),
        deltas_encoded(m, pics, 1) == Ok::<Seq<u8>, IffError>(rest),
        id_at(d, 0) == GROUP_FORM,
        id_at(d, 8) == TYPE_ANIM,
        group_end(d) == d.len(),
        lies_at(d, 12, leading),
        at == 12 + leading.len() + leading.len() as int % 2,
        lies_at(d, at, rest),
        at + rest.len() == d.len(),
        d.len() <= u32::MAX + 8,
    ensures
        timed_read(d) == Ok::<Reel, IffError>(reel_of(pics, pics.len() as int)),
        anim_read(d) == Ok::<Seq<Picture>, IffError>(pics),
{
    lemma_leading_back(d, 12, leading);
    lemma_first_frame(d, pics, leading);
    lemma_reel_back(d, at, m, pics, 1, rest);
    assert(pics.take(pics.len() as int) =~= pics);
}

/// The first frame of an animation is written as a picture.
proof fn lemma_leading_written(pic: Picture)
    requires
        pic.lossless(true),
        1 <= pic.bmhd.n_planes <= 8,
        ilbm_bytes(pic).len() <= u32::MAX,
    ensures
        is_picture(ilbm_bytes(pic)),
        ilbm_read(ilbm_bytes(pic)) == Ok::<Picture, IffError>(pic),
{
    law_ilbm_round_trip(pic);
    lemma_group(GROUP_FORM, TYPE_ILBM, ilbm_chunks(pic));
}

/// The frames of a group are found again.
proof fn lemma_group_back(
    d: Seq<u8>,
    m: DeltaMethod,
    pics: Seq<Picture>,
    leading: Seq<u8>,
    rest: Seq<u8>,
)
    requires
        lossless_frames(m, pics),
        pics[0].bmhd.n_planes <= 8,
        is_picture(leading),
        ilbm_read(leading) == Ok::<Picture, IffError>(pics[0]),
        deltas_encoded(m, pics, 1) == Ok::<Seq<u8>, IffError>(rest),
        d == group_bytes(GROUP_FORM, TYPE_ANIM, leading + pad_of(leading.len() as int) + rest),
        d.len() <= u32::MAX + 8,
    ensures
        timed_read(d) == Ok::<Reel, IffError>(reel_of(pics, pics.len() as int)),
        anim_read(d) == Ok::<Seq<Picture>, IffError>(pics),
{
    let front = leading + pad_of(leading.len() as int);
    lemma_group(GROUP_FORM, TYPE_ANIM, front + rest);
    lemma_anim_layout(d, leading, rest);
    lemma_frames_back(d, m, pics, leading, rest, 12int + front.len());
}

/// Reading a written animation gives its frames, for every operation; each is shown for one
/// sixtieth of a second.
#[verifier::spinoff_prover]
#[verifier::rlimit(30)]
pub proof fn law_anim_round_trip(m: DeltaMethod, pics: Seq<Picture>, d: Seq<u8>)
    requires
        lossless_frames(m, pics),
        anim_encoded(m, pics) == Ok::<Seq<u8>, IffError>(d),
        d.len() <= u32::MAX + 8,
    ensures
        anim_read(d) == Ok::<Seq<Picture>, IffError>(pics),
        timed_read(d) matches Ok(reel) && reel.frames == pics && reel.times.len() == pics.len()
            && forall|k: int| 1 <= k < pics.len() ==> #[trigger] reel.times[k] == 1,
{
    let leading = ilbm_bytes(pics[0]);
    let rest = deltas_encoded(m, pics, 1)->Ok_0;
    let pad = pad_of(leading.len() as int);
    assert(d == group_bytes(GROUP_FORM, TYPE_ANIM, leading + pad + rest));
    assert(d.len() == 12 + (leading + pad + rest).len());
    lemma_leading_written(pics[0]);
    lemma_group_back(d, m, pics, leading, rest);
}

/// The header of a delta frame names the operation and covers the whole bitmap, at its origin but
/// for operation 1, which starts at zero and names all planes. It modifies the frame just before,
/// a sixtieth of a second later. Operation 4 says that it is vertical and run length coded, and
/// operations 4 and 7 whether words are long.
pub proof fn law_delta_header(m: DeltaMethod, b: Bmhd)
    ensures
        ({
            let a = m.header(b);
            &&& m == DeltaMethod::Full ==> a.operation == 0
            &&& m == DeltaMethod::Xor ==> a.operation == 1
            &&& m == (DeltaMethod::Words { long_data: true }) ==> a.operation == 2
            &&& m == (DeltaMethod::Words { long_data: false }) ==> a.operation == 3
            &&& m is Generalized ==> a.operation == 4
            &&& m == DeltaMethod::ByteColumns ==> a.operation == 5
            &&& m is WordColumns ==> a.operation == 7
            &&& a.w == b.width
            &&& a.h == b.height
            &&& m != DeltaMethod::Xor ==> a.x == b.x_origin && a.y == b.y_origin && a.mask == 0
            &&& m == DeltaMethod::Xor ==> a.x == 0 && a.y == 0
            &&& m == DeltaMethod::Xor && b.n_planes >= 8 ==> a.mask == 0xFF
            &&& m == DeltaMethod::Xor && b.n_planes < 8 ==> a.mask == pow2(b.n_planes as nat) - 1
            &&& a.interleave == 1
            &&& a.abs_time == 0
            &&& a.rel_time == 1
            &&& m == (DeltaMethod::Generalized { long_data: false }) ==> a.bits == 24
            &&& m == (DeltaMethod::Generalized { long_data: true }) ==> a.bits == 25
            &&& m == (DeltaMethod::WordColumns { long_data: true }) ==> a.bits == 1
            &&& !(m is Generalized) && m != (DeltaMethod::WordColumns { long_data: true })
                ==> a.bits == 0
        }),
        m is Full || m is Xor || m is ByteColumns ==> m.payload_id()@ == seq![
            0x42u8,
            0x4Fu8,
            0x44u8,
            0x59u8,
        ],
        m is Words || m is Generalized || m is WordColumns ==> m.payload_id()@ == seq![
            0x44u8,
            0x4Cu8,
            0x54u8,
            0x41u8,
        ],
{
    lemma2_to64();
    assert(ID_BODY@ =~= seq![0x42u8, 0x4Fu8, 0x44u8, 0x59u8]);
    assert(ID_DLTA@ =~= seq![0x44u8, 0x4Cu8, 0x54u8, 0x41u8]);
}

} // verus!
