//! What the frames of an animation have to be, given its chunks.

use vstd::prelude::*;
use crate::anim::anhd::Anhd;
use crate::anim::delta::delta_applied;
use crate::anim::file::{
    delta_parts_read, empty_reel, frame_added, frame_at, reel_read, source_frame,
    timed_read, DeltaParts, ID_ANHD, ID_DLTA, Reel,
};
use crate::bytes::id_at;
use crate::chunk::{after_chunk, body_at, group_end, size_at};
use crate::error::IffError;
use crate::ilbm::file::{ilbm_read, ID_BODY};
use crate::ilbm::image::{shown, Picture};

verus! {

/// Where the chunks from `at` on start, up to `end`.
pub open spec fn chunk_starts(d: Seq<u8>, end: int, at: int) -> Seq<int>
    decreases end + 1 - at,
{
    if at + 8 > end || at + 8 + size_at(d, at) > end {
        Seq::empty()
    } else {
        seq![at] + chunk_starts(d, end, after_chunk(d, at))
    }
}

/// Where the frames among the chunks from `at` on start: the FORMs of type ILBM.
pub open spec fn frame_starts(d: Seq<u8>, end: int, at: int) -> Seq<int>
    decreases end + 1 - at,
{
    if at + 8 > end || at + 8 + size_at(d, at) > end {
        Seq::empty()
    } else {
        (if frame_at(d, at) {
            seq![at]
        } else {
            Seq::empty()
        }) + frame_starts(d, end, after_chunk(d, at))
    }
}

/// What is found in the delta frame that starts at `at`.
pub open spec fn parts_at(d: Seq<u8>, at: int) -> Result<DeltaParts, IffError> {
    delta_parts_read(
        d,
        at + 8 + size_at(d, at),
        at + 12,
        DeltaParts { anhd: None, delta: None },
    )
}

/// Whether a payload turns the bitmap of frame `m` into that of frame `n`.
pub open spec fn step_between(reel: Reel, a: Anhd, payload: Seq<u8>, m: int, n: int) -> bool {
    delta_applied(a, payload, reel.frames[0].bmhd, reel.planar[m]) == (
        reel.planar[n],
        Ok::<(), IffError>(()),
    )
}

/// Whether frame `n` is what the delta frame at `at` asks for. An interleave of zero modifies
/// the bitmap two frames back, any other that many frames back, and where there are not that
/// many the leading picture's.
pub open spec fn follows(d: Seq<u8>, at: int, reel: Reel, n: int) -> bool {
    let seed = reel.frames[0];
    &&& parts_at(d, at) matches Ok(parts)
    &&& parts.anhd matches Some(a)
    &&& parts.delta matches Some(payload)
    &&& a.interleave == 0 && n >= 2 ==> step_between(reel, a, payload, n - 2, n)
    &&& 1 <= a.interleave <= n ==> step_between(reel, a, payload, n - a.interleave, n)
    &&& a.interleave == 0 && n == 1 || a.interleave > n ==> step_between(reel, a, payload, 0, n)
    &&& shown(reel.planar[n], seed.bmhd, seed.palette, seed.camg, false) == Ok::<
        Picture,
        IffError,
    >(reel.frames[n])
    &&& reel.times[n] == a.rel_time
}

/// Whether the first frames of a reel are those that start at `starts`.
spec fn made_of(d: Seq<u8>, starts: Seq<int>, reel: Reel) -> bool {
    let n = starts.len();
    &&& reel.frames.len() == n
    &&& reel.planar.len() == n
    &&& reel.times.len() == n
    &&& n > 0 ==> {
        &&& ilbm_read(d.subrange(starts[0], starts[0] + 8 + size_at(d, starts[0]))) == Ok::<
            Picture,
            IffError,
        >(reel.frames[0])
        &&& reel.planar[0] == reel.frames[0].planar()
        &&& reel.times[0] == 0
    }
    &&& forall|k: int| 1 <= k < n ==> follows(d, #[trigger] starts[k], reel, k)
}

proof fn lemma_still_follows(d: Seq<u8>, at: int, reel: Reel, next: Reel, k: int)
    requires
        1 <= k < reel.planar.len(),
        follows(d, at, reel, k),
        next.frames[0] == reel.frames[0],
        next.frames[k] == reel.frames[k],
        next.times[k] == reel.times[k],
        forall|m: int| 0 <= m < reel.planar.len() ==> #[trigger] next.planar[m] == reel.planar[m],
    ensures
        follows(d, at, next, k),
{
    let parts = parts_at(d, at)->Ok_0;
    let a = parts.anhd->Some_0;
    let i = a.interleave as int;
    assert(next.planar[k] == reel.planar[k]);
    assert(next.planar[0] == reel.planar[0]);
    assert(k >= 2 ==> next.planar[k - 2] == reel.planar[k - 2]);
    assert(i <= k ==> next.planar[k - i] == reel.planar[k - i]);
}

proof fn lemma_frame_made(d: Seq<u8>, at: int, starts: Seq<int>, reel: Reel, next: Reel)
    requires
        made_of(d, starts, reel),
        frame_added(d, at, reel) == Ok::<Reel, IffError>(next),
    ensures
        made_of(d, starts.push(at), next),
{
    reveal(frame_added);
    let n = starts.len() as int;
    let all = starts.push(at);
    assert(all[n] == at);
    if n > 0 {
        assert(all[0] == starts[0]);
        assert(next.frames[0] == reel.frames[0]);
        assert(next.planar[0] == reel.planar[0]);
        assert(next.times[0] == reel.times[0]);
        assert forall|k: int| 1 <= k < all.len() implies follows(d, #[trigger] all[k], next, k) by {
            assert(forall|m: int| 0 <= m < n ==> #[trigger] next.planar[m] == reel.planar[m]);
            if k < n {
                assert(all[k] == starts[k]);
                assert(follows(d, starts[k], reel, k));
                lemma_still_follows(d, starts[k], reel, next, k);
            } else {
                let parts = parts_at(d, at)->Ok_0;
                let a = parts.anhd->Some_0;
                let payload = parts.delta->Some_0;
                let m: int = if a.interleave == 0 {
                    if n >= 2 {
                        n - 2
                    } else {
                        0
                    }
                } else if a.interleave <= n {
                    n - a.interleave
                } else {
                    0
                };
                assert(source_frame(a, n) == m);
                let (rs, r) = delta_applied(a, payload, reel.frames[0].bmhd, reel.planar[m]);
                assert(next.planar[n] == rs);
                assert(next.planar[m] == reel.planar[m]);
                assert(r is Ok);
                assert(r->Ok_0 == ());
                assert(step_between(next, a, payload, m, n));
            }
        }
    }
}

proof fn lemma_reel_made(
    d: Seq<u8>,
    end: int,
    at: int,
    starts: Seq<int>,
    reel: Reel,
    done: Reel,
)
    requires
        made_of(d, starts, reel),
        reel_read(d, end, at, reel) == Ok::<Reel, IffError>(done),
    ensures
        made_of(d, starts + frame_starts(d, end, at), done),
    decreases end + 1 - at,
{
    let here = frame_starts(d, end, at);
    if at + 8 > end {
        assert(starts + here =~= starts);
    } else if at + 8 + size_at(d, at) <= end {
        let next = after_chunk(d, at);
        let later = frame_starts(d, end, next);
        if frame_at(d, at) {
            let with = frame_added(d, at, reel)->Ok_0;
            lemma_frame_made(d, at, starts, reel, with);
            lemma_reel_made(d, end, next, starts.push(at), with, done);
            assert(starts + here =~= starts.push(at) + later);
        } else {
            lemma_reel_made(d, end, next, starts, reel, done);
            assert(starts + here =~= starts + later);
        }
    }
}

/// An animation that can be read has a frame for every FORM ILBM in it. The first is a picture
/// of its own. Every later one modifies the bitmap of an earlier frame: of that two before it
/// where its header has an interleave of zero, of that as many before it as the interleave says
/// otherwise, and of the first where there are not so many.
pub proof fn law_frames(d: Seq<u8>)
    ensures
        timed_read(d) matches Ok(reel) ==> {
            let starts = frame_starts(d, group_end(d), 12);
            let first = starts[0];
            &&& reel.frames.len() == starts.len()
            &&& reel.planar.len() == starts.len()
            &&& reel.times.len() == starts.len()
            &&& starts.len() > 0
            &&& ilbm_read(d.subrange(first, first + 8 + size_at(d, first))) == Ok::<
                Picture,
                IffError,
            >(reel.frames[0])
            &&& reel.planar[0] == reel.frames[0].planar()
            &&& reel.times[0] == 0
            &&& forall|n: int| 1 <= n < starts.len() ==> follows(d, #[trigger] starts[n], reel, n)
        },
{
    if let Ok(reel) = timed_read(d) {
        let none = Seq::<int>::empty();
        assert(made_of(d, none, empty_reel()));
        lemma_reel_made(d, group_end(d), 12, none, empty_reel(), reel);
        assert(none + frame_starts(d, group_end(d), 12) =~= frame_starts(d, group_end(d), 12));
    }
}

/// Whether chunk `k` of those that start at `starts` is the last that carries a payload.
pub open spec fn last_payload(d: Seq<u8>, starts: Seq<int>, k: int) -> bool {
    &&& 0 <= k < starts.len()
    &&& id_at(d, starts[k]) == ID_BODY || id_at(d, starts[k]) == ID_DLTA
    &&& forall|j: int|
        k < j < starts.len() ==> id_at(d, #[trigger] starts[j]) != ID_BODY && id_at(d, starts[j])
            != ID_DLTA
}

proof fn lemma_payload_kept(d: Seq<u8>, end: int, at: int, parts: DeltaParts, found: DeltaParts)
    requires
        delta_parts_read(d, end, at, parts) == Ok::<DeltaParts, IffError>(found),
        forall|j: int|
            0 <= j < chunk_starts(d, end, at).len() ==> id_at(
                d,
                #[trigger] chunk_starts(d, end, at)[j],
            ) != ID_BODY && id_at(d, chunk_starts(d, end, at)[j]) != ID_DLTA,
    ensures
        found.delta == parts.delta,
    decreases end + 1 - at,
{
    if at + 8 <= end && at + 8 + size_at(d, at) <= end {
        let all = chunk_starts(d, end, at);
        let next = after_chunk(d, at);
        let rest = chunk_starts(d, end, next);
        assert(all[0] == at);
        let step = crate::anim::file::delta_part_added(parts, id_at(d, at), body_at(d, at))->Ok_0;
        assert forall|j: int| 0 <= j < rest.len() implies id_at(d, #[trigger] rest[j]) != ID_BODY
            && id_at(d, rest[j]) != ID_DLTA by {
            assert(all[j + 1] == rest[j]);
        }
        lemma_payload_kept(d, end, next, step, found);
    }
}

proof fn lemma_payload_found(
    d: Seq<u8>,
    end: int,
    at: int,
    parts: DeltaParts,
    found: DeltaParts,
    k: int,
)
    requires
        delta_parts_read(d, end, at, parts) == Ok::<DeltaParts, IffError>(found),
        last_payload(d, chunk_starts(d, end, at), k),
    ensures
        found.delta == Some(body_at(d, chunk_starts(d, end, at)[k])),
    decreases end + 1 - at,
{
    let all = chunk_starts(d, end, at);
    let next = after_chunk(d, at);
    let rest = chunk_starts(d, end, next);
    let step = crate::anim::file::delta_part_added(parts, id_at(d, at), body_at(d, at))->Ok_0;
    assert(all[0] == at);
    assert(forall|j: int| 0 <= j < rest.len() ==> all[j + 1] == #[trigger] rest[j]);
    if k == 0 {
        assert(ID_ANHD[0] != ID_BODY[0] && ID_ANHD[0] != ID_DLTA[0]);
        lemma_payload_kept(d, end, next, step, found);
    } else {
        assert(rest[k - 1] == all[k]);
        assert forall|j: int| k - 1 < j < rest.len() implies id_at(d, #[trigger] rest[j])
            != ID_BODY && id_at(d, rest[j]) != ID_DLTA by {
            assert(all[j + 1] == rest[j]);
        }
        lemma_payload_found(d, end, next, step, found, k - 1);
    }
}

/// The payload of a delta frame is the body of its last `BODY` or `DLTA` chunk.
pub proof fn law_delta_payload(d: Seq<u8>, at: int, k: int)
    requires
        last_payload(d, chunk_starts(d, at + 8 + size_at(d, at), at + 12), k),
    ensures
        parts_at(d, at) matches Ok(parts) ==> parts.delta == Some(
            body_at(d, chunk_starts(d, at + 8 + size_at(d, at), at + 12)[k]),
        ),
{
    if let Ok(parts) = parts_at(d, at) {
        lemma_payload_found(
            d,
            at + 8 + size_at(d, at),
            at + 12,
            DeltaParts { anhd: None, delta: None },
            parts,
            k,
        );
    }
}

} // verus!
