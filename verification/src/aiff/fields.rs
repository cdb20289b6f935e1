//! Where the chunks of a file keep what they say.

use vstd::prelude::*;
use crate::aiff::chunk::{behind_first, chunk_list, first_chunk, past_pad, ChunkData};
use crate::aiff::comment::{comments_chunk, comments_read, CommentData};
use crate::aiff::common::{common_read, FORM_AIFC, FORM_AIFF};
use crate::aiff::error::AiffError;
use crate::aiff::extended::{
    excess_bits, extended, in_double, integer_part, is_sample_rate, Extended,
};
use crate::aiff::form::{form_read, inner, sound_read};
use crate::aiff::instrument::{instrument_read, resolved, Loop, LoopData, PlayMode};
use crate::aiff::marker::{
    marker_by_id, marker_chunk, marker_from, marker_name, markers_read, MarkerData,
};
use crate::aiff::pcm::unsigned_be;
use crate::aiff::precedence::ChunkClass;
use crate::aiff::saxel::{saxel_chunk, saxel_from, saxels_read, SaxelData};
use crate::bytes::{be16, be32, id_at, signed16};
use crate::text::lossy_text;
use vstd::arithmetic::power2::{lemma2_to64, lemma2_to64_rest, lemma_pow2_pos, pow2};

verus! {

/// The two's-complement integer that two bytes make, the first the more significant.
pub open spec fn short_at(d: Seq<u8>, at: int) -> int {
    if d[at] >= 128 {
        d[at] * 256 + d[at + 1] - 65536
    } else {
        d[at] * 256 + d[at + 1]
    }
}

proof fn lemma_numbers(d: Seq<u8>, at: int)
    ensures
        be16(d, at) == unsigned_be(d, at, 2),
        be32(d, at) == unsigned_be(d, at, 4),
        signed16(be16(d, at)) == short_at(d, at),
{
    reveal_with_fuel(unsigned_be, 5);
}

/// A common chunk has the number of channels in its first two bytes, that of sample frames in the
/// next four, the size of a sample in the next two and the sample rate in the next ten. In an
/// `AIFC` four bytes name the compression, and a length and so many bytes describe it.
pub proof fn law_common_fields(d: Seq<u8>, form_type: [u8; 4])
    ensures
        common_read(d, form_type) is Ok <==> {
            &&& form_type == FORM_AIFF || form_type == FORM_AIFC && d.len() >= 23 && 23 + d[22]
                <= d.len()
            &&& d.len() >= 18
            &&& 1 <= unsigned_be(d, 0, 2) < 0x8000
            &&& 1 <= unsigned_be(d, 6, 2) <= 32
            &&& is_sample_rate(extended(d.subrange(8, 18)))
        },
        common_read(d, form_type) matches Ok(c) ==> {
            &&& c.num_channels == unsigned_be(d, 0, 2)
            &&& c.num_sample_frames == unsigned_be(d, 2, 4)
            &&& c.sample_size == unsigned_be(d, 6, 2)
            &&& c.sample_rate == extended(d.subrange(8, 18))
            &&& form_type == FORM_AIFF ==> c.compression_type is None && c.compression_name is None
            &&& form_type == FORM_AIFC ==> {
                &&& c.compression_type == Some([d[18], d[19], d[20], d[21]])
                &&& c.compression_name == Some(lossy_text(d.subrange(23, 23 + d[22])))
            }
        },
{
    lemma_numbers(d, 0);
    lemma_numbers(d, 2);
    lemma_numbers(d, 6);
    assert(FORM_AIFF[3] != FORM_AIFC[3]);
    if d.len() >= 23 {
        let rest = d.subrange(22, d.len() as int);
        assert(rest[0] == d[22]);
        if 23 + d[22] <= d.len() {
            assert(rest.subrange(1, 1 + rest[0]) =~= d.subrange(23, 23 + d[22]));
        }
    }
    if let Ok(c) = common_read(d, form_type) {
        if let Some(t) = c.compression_type {
            assert(t =~= [d[18], d[19], d[20], d[21]]);
        }
    }
}

/// The ten bytes of a number: the top bit is the sign, the next fifteen are the exponent, and
/// the other eight bytes the mantissa. The number is the mantissa times two to the power of the
/// exponent less 16446, where an exponent of zero counts as one.
pub proof fn law_extended_fields(b: Seq<u8>)
    requires
        b.len() == 10,
    ensures
        ({
            let e = unsigned_be(b, 0, 2) % 0x8000;
            let m = unsigned_be(b, 2, 8);
            &&& e < 0x7FFF ==> (extended(b) matches Extended::Finite {
                negative,
                mantissa,
                scale,
            } && negative == (b[0] >= 128) && mantissa == m && scale == (if e == 0 {
                1
            } else {
                e
            }) - 16446)
            &&& e == 0x7FFF && m % 0x8000_0000_0000_0000 == 0 ==> extended(b)
                == Extended::Infinite { negative: b[0] >= 128 }
            &&& e == 0x7FFF && m % 0x8000_0000_0000_0000 != 0 ==> extended(b) == Extended::Nan
        }),
{
    reveal_with_fuel(unsigned_be, 9);
}

/// What is not a number, not finite, or not above zero is no sample rate; the other numbers are
/// as long as their scale stays within that of double precision.
pub proof fn law_rates(x: Extended)
    ensures
        x is Nan || x is Infinite ==> !is_sample_rate(x),
        x matches Extended::Finite { negative, mantissa, scale } ==> {
            &&& negative || mantissa == 0 ==> !is_sample_rate(x)
            &&& !negative && mantissa > 0 && -1074 <= scale < 960 ==> is_sample_rate(x)
            &&& scale >= 1024 || scale < -1138 ==> !is_sample_rate(x)
        },
{
}

/// The whole sample frames per second are the rate without its fraction.
pub proof fn law_whole_rate(mantissa: u64, scale: int)
    requires
        mantissa < 0x20_0000_0000_0000,
    ensures
        scale >= 0 ==> integer_part(mantissa, scale) == mantissa * pow2(scale as nat),
        scale < 0 ==> integer_part(mantissa, scale) * pow2((-scale) as nat) <= mantissa < (
        integer_part(mantissa, scale) + 1) * pow2((-scale) as nat),
{
    lemma2_to64();
    lemma2_to64_rest();
    assert(excess_bits(mantissa) == 0);
    assert(in_double(mantissa) == mantissa);
    if scale < 0 {
        let unit = pow2((-scale) as nat) as int;
        lemma_pow2_pos((-scale) as nat);
        let q = mantissa as int / unit;
        vstd::arithmetic::div_mod::lemma_fundamental_div_mod(mantissa as int, unit);
        assert(q * unit <= mantissa < (q + 1) * unit) by (nonlinear_arith)
            requires
                mantissa == unit * q + mantissa as int % unit,
                0 <= mantissa as int % unit < unit,
        ;
    }
}

/// An instrument chunk has twenty bytes: base note, detune, lowest and highest note, lowest and
/// highest velocity, two bytes of gain, and two loops of a mode and two markers each. Notes go up
/// to 127, velocities from 1 to 127, the detune from -50 to 50, and the mode from 0 to 2.
pub proof fn law_instrument_fields(d: Seq<u8>)
    ensures
        instrument_read(d) is Ok <==> {
            &&& d.len() == 20
            &&& d[0] <= 127 && d[2] <= 127 && d[3] <= 127
            &&& d[1] <= 50 || d[1] >= 206
            &&& 1 <= d[4] <= 127 && 1 <= d[5] <= 127
            &&& 0 <= short_at(d, 8) <= 2 && 0 <= short_at(d, 14) <= 2
        },
        instrument_read(d) matches Ok(i) ==> {
            &&& i.base_note == d[0]
            &&& i.detune == (if d[1] >= 128 {
                d[1] - 256
            } else {
                d[1] as int
            })
            &&& i.low_note == d[2]
            &&& i.high_note == d[3]
            &&& i.low_velocity == d[4]
            &&& i.high_velocity == d[5]
            &&& i.gain == short_at(d, 6)
            &&& loop_is(i.sustain_loop, d, 8)
            &&& loop_is(i.release_loop, d, 14)
        },
{
    lemma_numbers(d, 6);
    lemma_numbers(d, 8);
    lemma_numbers(d, 10);
    lemma_numbers(d, 12);
    lemma_numbers(d, 14);
    lemma_numbers(d, 16);
    lemma_numbers(d, 18);
}

/// Whether a loop is the one at `at`: its mode, zero for none, one for forward and two for forward
/// and backward, and the ids of the markers where it begins and ends.
pub open spec fn loop_is(l: Loop, d: Seq<u8>, at: int) -> bool {
    &&& short_at(d, at) == 0 ==> l.play_mode == PlayMode::NoLooping
    &&& short_at(d, at) == 1 ==> l.play_mode == PlayMode::Forward
    &&& short_at(d, at) == 2 ==> l.play_mode == PlayMode::ForwardBackward
    &&& l.begin_loop == short_at(d, at + 2)
    &&& l.end_loop == short_at(d, at + 4)
}

/// Sound data start with an offset and a block size of four bytes each; the samples are what
/// follows so many bytes behind them.
pub proof fn law_sound_fields(d: Seq<u8>, size: u32)
    ensures
        sound_read(d, size) is Ok <==> d.len() >= 8 && 8 + unsigned_be(d, 0, 4) <= d.len(),
        sound_read(d, size) matches Ok(s) ==> {
            &&& s.offset == unsigned_be(d, 0, 4)
            &&& s.block_size == unsigned_be(d, 4, 4)
            &&& s.samples == d.skip(8 + unsigned_be(d, 0, 4))
        },
{
    lemma_numbers(d, 0);
    lemma_numbers(d, 4);
    if let Ok(s) = sound_read(d, size) {
        assert(s.samples =~= d.skip(8 + unsigned_be(d, 0, 4)));
    }
}

/// A chunk has its id in its first four bytes, its size in the next four, and its body behind
/// them. The next chunk follows, behind one more byte where the size is odd.
pub proof fn law_first_chunk(d: Seq<u8>)
    requires
        d.len() > 0,
    ensures
        ({
            let size = unsigned_be(d, 4, 4);
            let next = 8 + size + size % 2;
            &&& first_chunk(d) is Ok <==> d.len() >= 8 && 8 + size <= d.len()
            &&& first_chunk(d) matches Ok(c) ==> {
                &&& c.id == [d[0], d[1], d[2], d[3]]
                &&& c.size == size
                &&& c.body == d.subrange(8, 8 + size)
                &&& next <= d.len() ==> chunk_list(d) == seq![Ok::<ChunkData, AiffError>(c)]
                    + chunk_list(d.skip(next))
                &&& next > d.len() ==> chunk_list(d) == seq![Ok::<ChunkData, AiffError>(c)]
            }
            &&& first_chunk(d) is Err ==> chunk_list(d) == seq![first_chunk(d)]
        }),
{
    lemma_numbers(d, 4);
    let size = unsigned_be(d, 4, 4);
    let next = 8 + size + size % 2;
    let rest = behind_first(d);
    assert(chunk_list(Seq::<u8>::empty()) =~= Seq::empty());
    if let Ok(c) = first_chunk(d) {
        assert(c.id =~= [d[0], d[1], d[2], d[3]]);
        if next < d.len() {
            assert(rest =~= d.skip(next));
        } else if next == d.len() {
            assert(rest =~= d.skip(next));
        } else {
            assert(rest =~= Seq::<u8>::empty());
        }
    }
    assert(seq![first_chunk(d)] + Seq::<Result<ChunkData, AiffError>>::empty() =~= seq![
        first_chunk(d),
    ]);
}

/// Where the entry behind one starts whose `n` last bytes are preceded by `head` others: entries
/// are padded to an even number of bytes, but not past the end of the data.
pub open spec fn entry_after(d: Seq<u8>, at: int, head: int, n: int) -> int {
    let end = at + head + n;
    if (head + n) % 2 == 1 && end < d.len() {
        end + 1
    } else {
        end
    }
}

/// Where comment `k` starts.
pub open spec fn comment_start(d: Seq<u8>, k: int) -> int
    decreases k,
{
    if k <= 0 {
        2
    } else {
        let at = comment_start(d, k - 1);
        entry_after(d, at, 8, unsigned_be(d, at + 6, 2))
    }
}

/// Whether a comment is the one at `at`: four bytes of time, two of a marker id, two of length,
/// and the text.
pub open spec fn comment_is(c: CommentData, d: Seq<u8>, at: int) -> bool {
    let n = unsigned_be(d, at + 6, 2);
    &&& at + 8 + n <= d.len()
    &&& c.timestamp == unsigned_be(d, at, 4)
    &&& c.marker == short_at(d, at + 4)
    &&& c.text == lossy_text(d.subrange(at + 8, at + 8 + n))
}

proof fn lemma_comments_at(d: Seq<u8>, i: int, n: int, seen: Seq<CommentData>, k: int)
    requires
        0 <= i <= n,
        seen.len() == i,
        comments_read(d, comment_start(d, i), n - i, seen) is Ok,
        0 <= k < n,
    ensures
        ({
            let cs = comments_read(d, comment_start(d, i), n - i, seen)->Ok_0;
            &&& cs.len() == n
            &&& k < i ==> cs[k] == seen[k]
            &&& k >= i ==> comment_is(cs[k], d, comment_start(d, k))
        }),
    decreases n - i,
{
    let at = comment_start(d, i);
    lemma_numbers(d, at);
    lemma_numbers(d, at + 4);
    lemma_numbers(d, at + 6);
    if i < n {
        let count = be16(d, at + 6) as int;
        let end = at + 8 + count;
        let c = CommentData {
            timestamp: be32(d, at),
            marker: signed16(be16(d, at + 4)),
            text: lossy_text(d.subrange(at + 8, end)),
        };
        assert(comment_start(d, i + 1) == past_pad(count, end, d.len() as int));
        lemma_comments_at(d, i + 1, n, seen.push(c), k);
    }
}

/// There are as many comments as the first two bytes say, one behind the other.
pub proof fn law_comments_at(d: Seq<u8>, k: int)
    ensures
        comments_chunk(d) matches Ok(cs) ==> {
            &&& cs.len() == unsigned_be(d, 0, 2)
            &&& 0 <= k < cs.len() ==> comment_is(cs[k], d, comment_start(d, k))
        },
{
    lemma_numbers(d, 0);
    if comments_chunk(d) is Ok {
        let n = be16(d, 0) as int;
        if n > 0 {
            lemma_comments_at(d, 0, n, Seq::empty(), if 0 <= k < n {
                k
            } else {
                0
            });
        }
    }
}

/// Where saxel `k` starts.
pub open spec fn saxel_start(d: Seq<u8>, k: int) -> int
    decreases k,
{
    if k <= 0 {
        2
    } else {
        let at = saxel_start(d, k - 1);
        entry_after(d, at, 4, unsigned_be(d, at + 2, 2))
    }
}

/// Whether a saxel is the one at `at`: two bytes of a marker id, two of size, and the data.
pub open spec fn saxel_is(s: SaxelData, d: Seq<u8>, at: int) -> bool {
    let n = unsigned_be(d, at + 2, 2);
    &&& at + 4 + n <= d.len()
    &&& s.id == short_at(d, at)
    &&& s.data == d.subrange(at + 4, at + 4 + n)
}

proof fn lemma_saxels_at(d: Seq<u8>, i: int, n: int, seen: Seq<SaxelData>, k: int)
    requires
        0 <= i <= n,
        seen.len() == i,
        saxels_read(d, saxel_start(d, i), n - i, seen) is Ok,
        0 <= k < n,
    ensures
        ({
            let ss = saxels_read(d, saxel_start(d, i), n - i, seen)->Ok_0;
            &&& ss.len() == n
            &&& k < i ==> ss[k] == seen[k]
            &&& k >= i ==> saxel_is(ss[k], d, saxel_start(d, k))
        }),
    decreases n - i,
{
    let at = saxel_start(d, i);
    lemma_numbers(d, at);
    lemma_numbers(d, at + 2);
    if i < n {
        let size = be16(d, at + 2) as int;
        let end = at + 4 + size;
        let s = SaxelData { id: signed16(be16(d, at)), data: d.subrange(at + 4, end) };
        assert(saxel_start(d, i + 1) == past_pad(size, end, d.len() as int));
        lemma_saxels_at(d, i + 1, n, seen.push(s), k);
    }
}

/// There are as many saxels as the first two bytes say, one behind the other.
pub proof fn law_saxels_at(d: Seq<u8>, k: int)
    ensures
        saxel_chunk(d) matches Ok(ss) ==> {
            &&& ss.len() == unsigned_be(d, 0, 2)
            &&& 0 <= k < ss.len() ==> saxel_is(ss[k], d, saxel_start(d, k))
        },
{
    lemma_numbers(d, 0);
    if saxel_chunk(d) is Ok {
        let n = be16(d, 0) as int;
        if n > 0 {
            lemma_saxels_at(d, 0, n, Seq::empty(), if 0 <= k < n {
                k
            } else {
                0
            });
        }
    }
}

/// Where marker `k` starts.
pub open spec fn marker_start(d: Seq<u8>, k: int) -> int
    decreases k,
{
    if k <= 0 {
        2
    } else {
        let at = marker_start(d, k - 1);
        entry_after(d, at, 7, d[at + 6] as int)
    }
}

/// Whether a marker is the one at `at`: two bytes of an id, four of a position, a length, and the
/// name.
pub open spec fn marker_is(m: MarkerData, d: Seq<u8>, at: int) -> bool {
    let n = d[at + 6] as int;
    &&& at + 7 + n <= d.len()
    &&& m.id == short_at(d, at)
    &&& m.id >= 1
    &&& m.position == unsigned_be(d, at + 2, 4)
    &&& m.name == lossy_text(d.subrange(at + 7, at + 7 + n))
}

proof fn lemma_markers_at(d: Seq<u8>, i: int, n: int, seen: Seq<MarkerData>, k: int)
    requires
        0 <= i <= n,
        seen.len() == i,
        marker_start(d, i) >= 0,
        markers_read(d, marker_start(d, i), n - i, seen) is Ok,
        0 <= k < n,
    ensures
        ({
            let ms = markers_read(d, marker_start(d, i), n - i, seen)->Ok_0;
            &&& ms.len() == n
            &&& k < i ==> ms[k] == seen[k]
            &&& k >= i ==> marker_is(ms[k], d, marker_start(d, k))
        }),
    decreases n - i,
{
    let at = marker_start(d, i);
    lemma_numbers(d, at);
    lemma_numbers(d, at + 2);
    if i < n {
        let tail = d.subrange(at + 6, d.len() as int);
        assert(tail[0] == d[at + 6]);
        let (name, taken) = marker_name(tail)->Ok_0;
        let len = d[at + 6] as int;
        assert(tail.subrange(1, 1 + len) =~= d.subrange(at + 7, at + 7 + len));
        let m = MarkerData { id: signed16(be16(d, at)), position: be32(d, at + 2), name };
        assert(marker_start(d, i + 1) == at + 6 + taken);
        lemma_markers_at(d, i + 1, n, seen.push(m), k);
    }
}

/// There are as many markers as the first two bytes say, one behind the other.
pub proof fn law_markers_at(d: Seq<u8>, k: int)
    ensures
        marker_chunk(d) matches Ok(ms) ==> {
            &&& ms.len() == unsigned_be(d, 0, 2)
            &&& 0 <= k < ms.len() ==> marker_is(ms[k], d, marker_start(d, k))
        },
{
    lemma_numbers(d, 0);
    if marker_chunk(d) is Ok {
        let n = be16(d, 0) as int;
        if n > 0 {
            lemma_markers_at(d, 0, n, Seq::empty(), if 0 <= k < n {
                k
            } else {
                0
            });
        }
    }
}

proof fn lemma_marker_from(ms: Seq<MarkerData>, id: i16, i: int, at: int)
    requires
        0 <= at <= i < ms.len(),
        ms[i].id == id,
        forall|j: int| 0 <= j < i ==> (#[trigger] ms[j]).id != id,
    ensures
        marker_from(ms, id, at) == Some(ms[i]),
    decreases i - at,
{
    if at < i {
        assert(ms[at].id != id);
        lemma_marker_from(ms, id, i, at + 1);
    }
}

proof fn lemma_no_marker(ms: Seq<MarkerData>, id: i16, at: int)
    requires
        0 <= at,
        forall|j: int| 0 <= j < ms.len() ==> (#[trigger] ms[j]).id != id,
    ensures
        marker_from(ms, id, at) is None,
    decreases ms.len() - at,
{
    if at < ms.len() {
        assert(ms[at].id != id);
        lemma_no_marker(ms, id, at + 1);
    }
}

/// The marker with an id is the first that has it, and there is none where none has.
pub proof fn law_marker_by_id(ms: Seq<MarkerData>, id: i16, i: int)
    ensures
        0 <= i < ms.len() && ms[i].id == id && (forall|j: int|
            0 <= j < i ==> (#[trigger] ms[j]).id != id) ==> marker_by_id(ms, id) == Some(ms[i]),
        (forall|j: int| 0 <= j < ms.len() ==> (#[trigger] ms[j]).id != id) ==> marker_by_id(ms, id)
            is None,
{
    if 0 <= i < ms.len() && ms[i].id == id && (forall|j: int|
        0 <= j < i ==> (#[trigger] ms[j]).id != id) {
        lemma_marker_from(ms, id, i, 0);
    }
    if forall|j: int| 0 <= j < ms.len() ==> (#[trigger] ms[j]).id != id {
        lemma_no_marker(ms, id, 0);
    }
}

proof fn lemma_saxel_from(ss: Seq<SaxelData>, id: i16, i: int, at: int)
    requires
        0 <= at <= i < ss.len(),
        ss[i].id == id,
        forall|j: int| 0 <= j < i ==> (#[trigger] ss[j]).id != id,
    ensures
        saxel_from(ss, id, at) == Some(ss[i]),
    decreases i - at,
{
    if at < i {
        assert(ss[at].id != id);
        lemma_saxel_from(ss, id, i, at + 1);
    }
}

proof fn lemma_no_saxel(ss: Seq<SaxelData>, id: i16, at: int)
    requires
        0 <= at,
        forall|j: int| 0 <= j < ss.len() ==> (#[trigger] ss[j]).id != id,
    ensures
        saxel_from(ss, id, at) is None,
    decreases ss.len() - at,
{
    if at < ss.len() {
        assert(ss[at].id != id);
        lemma_no_saxel(ss, id, at + 1);
    }
}

/// The saxel for a marker is the first that names it, and there is none where none does.
pub proof fn law_saxel_by_marker_id(ss: Seq<SaxelData>, id: i16, i: int)
    ensures
        0 <= i < ss.len() && ss[i].id == id && (forall|j: int|
            0 <= j < i ==> (#[trigger] ss[j]).id != id) ==> saxel_from(ss, id, 0) == Some(ss[i]),
        (forall|j: int| 0 <= j < ss.len() ==> (#[trigger] ss[j]).id != id) ==> saxel_from(
            ss,
            id,
            0,
        ) is None,
{
    if 0 <= i < ss.len() && ss[i].id == id && (forall|j: int|
        0 <= j < i ==> (#[trigger] ss[j]).id != id) {
        lemma_saxel_from(ss, id, i, 0);
    }
    if forall|j: int| 0 <= j < ss.len() ==> (#[trigger] ss[j]).id != id {
        lemma_no_saxel(ss, id, 0);
    }
}

/// A loop with a mode that begins at one marker and ends at a later place, at another marker, runs
/// between the two; the markers have ids above zero.
pub proof fn law_loop_resolved(lp: Loop, ms: Seq<MarkerData>, i: int, j: int)
    requires
        lp.play_mode != PlayMode::NoLooping,
        0 <= i < ms.len(),
        0 <= j < ms.len(),
        forall|a: int, b: int|
            0 <= a < b < ms.len() ==> (#[trigger] ms[a]).id != (#[trigger] ms[b]).id,
        ms[i].id == lp.begin_loop,
        ms[j].id == lp.end_loop,
        lp.begin_loop > 0,
        lp.end_loop > 0,
    ensures
        ms[i].position < ms[j].position ==> resolved(lp, ms) == Some(
            LoopData { play_mode: lp.play_mode, begin: ms[i], end: ms[j] },
        ),
        ms[i].position >= ms[j].position ==> resolved(lp, ms) is None,
{
    law_marker_by_id(ms, lp.begin_loop, i);
    law_marker_by_id(ms, lp.end_loop, j);
}

/// The order in which chunks are believed.
pub proof fn law_order_of_belief()
    ensures
        ChunkClass::FormatVersion.rank() < ChunkClass::Common.rank(),
        ChunkClass::Common.rank() < ChunkClass::Instrument.rank(),
        ChunkClass::Instrument.rank() < ChunkClass::Saxel.rank(),
        ChunkClass::Saxel.rank() < ChunkClass::Comments.rank(),
        ChunkClass::Comments.rank() < ChunkClass::Marker.rank(),
        ChunkClass::Marker.rank() < ChunkClass::SoundData.rank(),
        ChunkClass::SoundData.rank() < ChunkClass::Name.rank(),
        ChunkClass::Name.rank() < ChunkClass::Author.rank(),
        ChunkClass::Author.rank() < ChunkClass::Copyright.rank(),
        ChunkClass::Copyright.rank() < ChunkClass::Annotation.rank(),
        ChunkClass::Annotation.rank() < ChunkClass::AudioRecording.rank(),
        ChunkClass::AudioRecording.rank() < ChunkClass::MidiData.rank(),
        ChunkClass::MidiData.rank() < ChunkClass::ApplicationSpecific.rank(),
{
}

/// The chunks of a file are the bytes behind its type, up to the end that its size announces or
/// that of the data. Where the size has no room for the type, there are none.
pub proof fn law_inner(d: Seq<u8>)
    requires
        d.len() >= 12,
    ensures
        ({
            let size = unsigned_be(d, 4, 4);
            &&& size >= 4 && 8 + size <= d.len() ==> inner(d) == d.subrange(12, 8 + size)
            &&& 8 + size > d.len() ==> inner(d) == d.skip(12)
            &&& size < 4 && 8 + size <= d.len() ==> inner(d).len() == 0
        }),
{
    lemma_numbers(d, 4);
    if 8 + unsigned_be(d, 4, 4) > d.len() {
        assert(inner(d) =~= d.skip(12));
    }
}

/// A file can be read only where it is a FORM of one of the two types, with a common chunk, and
/// with sound data where there are sample frames.
pub proof fn law_readable_file(d: Seq<u8>)
    ensures
        form_read(d) matches Ok(f) ==> {
            &&& d.len() >= 12
            &&& d.subrange(0, 4) == seq![0x46u8, 0x4Fu8, 0x52u8, 0x4Du8]
            &&& d.subrange(8, 12) == seq![0x41u8, 0x49u8, 0x46u8, 0x46u8] || d.subrange(8, 12)
                == seq![0x41u8, 0x49u8, 0x46u8, 0x43u8]
            &&& f.form_type@ == d.subrange(8, 12)
            &&& f.contents.common matches Some(c) && (c.num_sample_frames > 0
                ==> f.contents.sound is Some)
        },
{
    if let Ok(f) = form_read(d) {
        let a = id_at(d, 0);
        let b = id_at(d, 8);
        assert(a[0] == d[0] && a[1] == d[1] && a[2] == d[2] && a[3] == d[3]);
        assert(b[0] == d[8] && b[1] == d[9] && b[2] == d[10] && b[3] == d[11]);
        assert(d.subrange(0, 4) =~= seq![0x46u8, 0x4Fu8, 0x52u8, 0x4Du8]);
        if b == FORM_AIFF {
            assert(d.subrange(8, 12) =~= seq![0x41u8, 0x49u8, 0x46u8, 0x46u8]);
        } else {
            assert(d.subrange(8, 12) =~= seq![0x41u8, 0x49u8, 0x46u8, 0x43u8]);
        }
        assert(f.form_type@ =~= d.subrange(8, 12));
    }
}

} // verus!
