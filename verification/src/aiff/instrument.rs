//! The instrument chunk: how a sampler plays the sound.

use vstd::prelude::*;
use crate::aiff::error::AiffError;
use crate::aiff::marker::{marker_by_id, marker_from, Marker, MarkerChunk, MarkerData};
use crate::bytes::{
    be16, be16_bytes, law_signed_round_trip, lemma_lies_be16, lemma_lies_byte, lemma_lies_split,
    lies_at, push_be16, read_be16, signed16, signed8, to_signed16, to_signed8, to_unsigned16,
    to_unsigned8, unsigned16, unsigned8,
};

verus! {

/// How a loop is played.
#[derive(Clone, Copy, Debug, PartialEq, Eq, Structural)]
pub enum PlayMode {
    /// There is no loop.
    NoLooping,
    /// Forward, over and over.
    Forward,
    /// Forward and backward in turn.
    ForwardBackward,
}

/// The mode that a field stands for.
pub open spec fn play_mode(v: i16) -> Result<PlayMode, AiffError> {
    if v == 0 {
        Ok(PlayMode::NoLooping)
    } else if v == 1 {
        Ok(PlayMode::Forward)
    } else if v == 2 {
        Ok(PlayMode::ForwardBackward)
    } else {
        Err(AiffError::InvalidValue { what: "playMode", value: v as i64 })
    }
}

impl PlayMode {
    /// The mode that a field stands for.
    pub fn from_short(v: i16) -> (r: Result<Self, AiffError>)
        ensures
            r == play_mode(v),
    {
        if v == 0 {
            Ok(PlayMode::NoLooping)
        } else if v == 1 {
            Ok(PlayMode::Forward)
        } else if v == 2 {
            Ok(PlayMode::ForwardBackward)
        } else {
            Err(AiffError::InvalidValue { what: "playMode", value: v as i64 })
        }
    }

    /// The field that stands for the mode.
    #[verifier::allow_in_spec]
    pub fn to_short(self) -> u8
        returns
            (match self {
                PlayMode::NoLooping => 0u8,
                PlayMode::Forward => 1u8,
                PlayMode::ForwardBackward => 2u8,
            }),
    {
        match self {
            PlayMode::NoLooping => 0,
            PlayMode::Forward => 1,
            PlayMode::ForwardBackward => 2,
        }
    }
}

/// A part of the sound that is played over and over.
#[derive(Clone, Copy, Debug, PartialEq, Eq, Structural)]
pub struct Loop {
    /// How it is played.
    pub play_mode: PlayMode,
    /// Id of the marker at which it starts.
    pub begin_loop: i16,
    /// Id of the marker at which it ends.
    pub end_loop: i16,
}

impl Loop {
    /// Whether the loop is played at all: it has a mode, and two different markers.
    #[verifier::allow_in_spec]
    pub fn is_effective(&self) -> bool
        returns
            (self.play_mode != PlayMode::NoLooping && self.begin_loop > 0 && self.end_loop > 0
                && self.begin_loop != self.end_loop),
    {
        self.play_mode != PlayMode::NoLooping && self.begin_loop > 0 && self.end_loop > 0
            && self.begin_loop != self.end_loop
    }
}

/// A loop with the markers that it runs between.
#[derive(Clone, Copy, Debug, PartialEq, Eq)]
pub struct ResolvedLoop<'m> {
    /// How it is played.
    pub play_mode: PlayMode,
    /// Where it starts.
    pub begin: &'m Marker,
    /// Where it ends.
    pub end: &'m Marker,
}

/// What a loop with its markers says.
#[verifier::ext_equal]
pub struct LoopData {
    /// How it is played.
    pub play_mode: PlayMode,
    /// Where it starts.
    pub begin: MarkerData,
    /// Where it ends.
    pub end: MarkerData,
}

impl<'m> View for ResolvedLoop<'m> {
    type V = LoopData;

    open spec fn view(&self) -> LoopData {
        LoopData { play_mode: self.play_mode, begin: self.begin@, end: self.end@ }
    }
}

/// The loop between its markers. There is none where it is not played, where a marker is
/// missing, or where it does not end behind its start.
pub open spec fn resolved(lp: Loop, ms: Seq<MarkerData>) -> Option<LoopData> {
    match (marker_by_id(ms, lp.begin_loop), marker_by_id(ms, lp.end_loop)) {
        (Some(begin), Some(end)) => if lp.is_effective() && begin.position < end.position {
            Some(LoopData { play_mode: lp.play_mode, begin, end })
        } else {
            None
        },
        _ => None,
    }
}

/// Finds the markers that a loop runs between.
pub fn resolve_against<'m>(lp: &Loop, markers: &'m MarkerChunk) -> (r: Option<ResolvedLoop<'m>>)
    ensures
        match r {
            Some(l) => resolved(*lp, markers@) == Some(l@),
            None => resolved(*lp, markers@) is None,
        },
{
    if !lp.is_effective() {
        return None;
    }
    match markers.by_id(lp.begin_loop) {
        Some(begin) => match markers.by_id(lp.end_loop) {
            Some(end) => if begin.position < end.position {
                Some(ResolvedLoop { play_mode: lp.play_mode, begin, end })
            } else {
                None
            },
            None => None,
        },
        None => None,
    }
}

/// An instrument chunk.
#[derive(Clone, Copy, Debug, PartialEq, Eq, Structural)]
pub struct InstrumentChunk {
    /// Note at which the sound was recorded.
    pub base_note: u8,
    /// Cents by which the pitch is shifted.
    pub detune: i8,
    /// Lowest note to play the sound at.
    pub low_note: u8,
    /// Highest note to play the sound at.
    pub high_note: u8,
    /// Lowest velocity to play the sound at.
    pub low_velocity: u8,
    /// Highest velocity to play the sound at.
    pub high_velocity: u8,
    /// Decibels by which the sound is amplified.
    pub gain: i16,
    /// Loop while the note is held.
    pub sustain_loop: Loop,
    /// Loop once the note is released.
    pub release_loop: Loop,
}

impl InstrumentChunk {
    /// The loop while the note is held, with its markers.
    pub fn resolve_sustain_loop<'m>(&self, markers: &'m MarkerChunk) -> (r: Option<
        ResolvedLoop<'m>,
    >)
        ensures
            match r {
                Some(l) => resolved(self.sustain_loop, markers@) == Some(l@),
                None => resolved(self.sustain_loop, markers@) is None,
            },
    {
        resolve_against(&self.sustain_loop, markers)
    }

    /// The loop once the note is released, with its markers.
    pub fn resolve_release_loop<'m>(&self, markers: &'m MarkerChunk) -> (r: Option<
        ResolvedLoop<'m>,
    >)
        ensures
            match r {
                Some(l) => resolved(self.release_loop, markers@) == Some(l@),
                None => resolved(self.release_loop, markers@) is None,
            },
    {
        resolve_against(&self.release_loop, markers)
    }
}

/// The loop in the six bytes at `at`.
pub open spec fn loop_at(d: Seq<u8>, at: int) -> Result<Loop, AiffError> {
    match play_mode(signed16(be16(d, at))) {
        Ok(mode) => Ok(
            Loop {
                play_mode: mode,
                begin_loop: signed16(be16(d, at + 2)),
                end_loop: signed16(be16(d, at + 4)),
            },
        ),
        Err(e) => Err(e),
    }
}

/// Why a note is refused, if it is.
pub open spec fn bad_note(what: &'static str, n: u8) -> Option<AiffError> {
    if n > 127 {
        Some(AiffError::InvalidValue { what, value: n as i64 })
    } else {
        None
    }
}

/// Why a velocity is refused, if it is.
pub open spec fn bad_velocity(what: &'static str, v: u8) -> Option<AiffError> {
    if v < 1 || v > 127 {
        Some(AiffError::InvalidValue { what, value: v as i64 })
    } else {
        None
    }
}

/// Why a detune is refused, if it is.
pub open spec fn bad_detune(d: i8) -> Option<AiffError> {
    if d < -50 || d > 50 {
        Some(AiffError::InvalidValue { what: "detune", value: d as i64 })
    } else {
        None
    }
}

/// Why the numbers at the start of an instrument chunk are refused, if they are.
pub open spec fn bad_range(d: Seq<u8>) -> Option<AiffError> {
    if bad_note("baseNote", d[0]) is Some {
        bad_note("baseNote", d[0])
    } else if bad_note("lowNote", d[2]) is Some {
        bad_note("lowNote", d[2])
    } else if bad_note("highNote", d[3]) is Some {
        bad_note("highNote", d[3])
    } else if bad_detune(signed8(d[1])) is Some {
        bad_detune(signed8(d[1]))
    } else if bad_velocity("lowVelocity", d[4]) is Some {
        bad_velocity("lowVelocity", d[4])
    } else {
        bad_velocity("highVelocity", d[5])
    }
}

/// The instrument that twenty bytes describe.
pub open spec fn instrument_read(d: Seq<u8>) -> Result<InstrumentChunk, AiffError> {
    if d.len() < 20 {
        Err(AiffError::Truncated("INST chunk"))
    } else if d.len() > 20 {
        Err(AiffError::InvalidValue { what: "INST ckSize", value: d.len() as i64 })
    } else if bad_range(d) is Some {
        Err(bad_range(d)->0)
    } else {
        match loop_at(d, 8) {
            Ok(sustain_loop) => match loop_at(d, 14) {
                Ok(release_loop) => Ok(
                    InstrumentChunk {
                        base_note: d[0],
                        detune: signed8(d[1]),
                        low_note: d[2],
                        high_note: d[3],
                        low_velocity: d[4],
                        high_velocity: d[5],
                        gain: signed16(be16(d, 6)),
                        sustain_loop,
                        release_loop,
                    },
                ),
                Err(e) => Err(e),
            },
            Err(e) => Err(e),
        }
    }
}

fn check_midi_note(what: &'static str, n: u8) -> (r: Option<AiffError>)
    ensures
        r == bad_note(what, n),
{
    if n > 127 {
        Some(AiffError::InvalidValue { what, value: n as i64 })
    } else {
        None
    }
}

fn check_velocity(what: &'static str, v: u8) -> (r: Option<AiffError>)
    ensures
        r == bad_velocity(what, v),
{
    if v < 1 || v > 127 {
        Some(AiffError::InvalidValue { what, value: v as i64 })
    } else {
        None
    }
}

fn check_detune(d: i8) -> (r: Option<AiffError>)
    ensures
        r == bad_detune(d),
{
    if d < -50 || d > 50 {
        Some(AiffError::InvalidValue { what: "detune", value: d as i64 })
    } else {
        None
    }
}

fn check_range(data: &[u8]) -> (r: Option<AiffError>)
    requires
        data@.len() == 20,
    ensures
        r == bad_range(data@),
{
    if let Some(e) = check_midi_note("baseNote", data[0]) {
        return Some(e);
    }
    if let Some(e) = check_midi_note("lowNote", data[2]) {
        return Some(e);
    }
    if let Some(e) = check_midi_note("highNote", data[3]) {
        return Some(e);
    }
    if let Some(e) = check_detune(to_signed8(data[1])) {
        return Some(e);
    }
    if let Some(e) = check_velocity("lowVelocity", data[4]) {
        return Some(e);
    }
    check_velocity("highVelocity", data[5])
}

fn parse_loop(data: &[u8], at: usize) -> (r: Result<Loop, AiffError>)
    requires
        at <= 14,
        data@.len() == 20,
    ensures
        r == loop_at(data@, at as int),
{
    match PlayMode::from_short(to_signed16(read_be16(data, at))) {
        Ok(play_mode) => Ok(
            Loop {
                play_mode,
                begin_loop: to_signed16(read_be16(data, at + 2)),
                end_loop: to_signed16(read_be16(data, at + 4)),
            },
        ),
        Err(e) => Err(e),
    }
}

/// Reads the body of an instrument chunk.
pub fn parse_instrument_chunk(data: &[u8]) -> (r: Result<InstrumentChunk, AiffError>)
    ensures
        r == instrument_read(data@),
{
    let n: usize = data.len();
    if n < 20 {
        return Err(AiffError::Truncated("INST chunk"));
    }
    if n > 20 {
        return Err(AiffError::InvalidValue { what: "INST ckSize", value: n as i64 });
    }
    if let Some(e) = check_range(data) {
        return Err(e);
    }
    let sustain_loop: Loop = match parse_loop(data, 8) {
        Ok(l) => l,
        Err(e) => {
            return Err(e);
        },
    };
    let release_loop: Loop = match parse_loop(data, 14) {
        Ok(l) => l,
        Err(e) => {
            return Err(e);
        },
    };
    Ok(
        InstrumentChunk {
            base_note: data[0],
            detune: to_signed8(data[1]),
            low_note: data[2],
            high_note: data[3],
            low_velocity: data[4],
            high_velocity: data[5],
            gain: to_signed16(read_be16(data, 6)),
            sustain_loop,
            release_loop,
        },
    )
}

/// The six bytes of a loop.
pub open spec fn loop_bytes(lp: Loop) -> Seq<u8> {
    be16_bytes(lp.play_mode.to_short() as u16) + be16_bytes(unsigned16(lp.begin_loop))
        + be16_bytes(unsigned16(lp.end_loop))
}

/// The body of an instrument chunk.
pub open spec fn instrument_bytes(i: InstrumentChunk) -> Seq<u8> {
    seq![
        i.base_note,
        unsigned8(i.detune),
        i.low_note,
        i.high_note,
        i.low_velocity,
        i.high_velocity,
    ] + be16_bytes(unsigned16(i.gain)) + loop_bytes(i.sustain_loop) + loop_bytes(i.release_loop)
}

fn write_loop(out: &mut Vec<u8>, lp: &Loop)
    ensures
        final(out)@ == old(out)@ + loop_bytes(*lp),
{
    let ghost out0 = out@;
    push_be16(out, lp.play_mode.to_short() as u16);
    push_be16(out, to_unsigned16(lp.begin_loop));
    push_be16(out, to_unsigned16(lp.end_loop));
    assert(out@ =~= out0 + loop_bytes(*lp));
}

/// Writes the body of an instrument chunk.
pub fn write_instrument_chunk(inst: &InstrumentChunk) -> (r: [u8; 20])
    ensures
        r@ == instrument_bytes(*inst),
{
    let mut v: Vec<u8> = Vec::new();
    v.push(inst.base_note);
    v.push(to_unsigned8(inst.detune));
    v.push(inst.low_note);
    v.push(inst.high_note);
    v.push(inst.low_velocity);
    v.push(inst.high_velocity);
    push_be16(&mut v, to_unsigned16(inst.gain));
    write_loop(&mut v, &inst.sustain_loop);
    write_loop(&mut v, &inst.release_loop);
    assert(v@ =~= instrument_bytes(*inst));
    let mut r: [u8; 20] = [0;20];
    let mut i: usize = 0;
    while i < 20
        invariant
            i <= 20,
            v@.len() == 20,
            forall|k: int| 0 <= k < i ==> r[k] == v[k],
        decreases 20 - i,
    {
        r[i] = v[i];
        i += 1;
    }
    assert(r@ =~= v@);
    r
}

/// Whether all numbers of an instrument are in their ranges.
pub open spec fn in_range(i: InstrumentChunk) -> bool {
    &&& i.base_note <= 127
    &&& i.low_note <= 127
    &&& i.high_note <= 127
    &&& -50 <= i.detune <= 50
    &&& 1 <= i.low_velocity <= 127
    &&& 1 <= i.high_velocity <= 127
}

proof fn lemma_loop_back(d: Seq<u8>, at: int, lp: Loop)
    requires
        lies_at(d, at, loop_bytes(lp)),
    ensures
        loop_at(d, at) == Ok::<Loop, AiffError>(lp),
{
    let a = be16_bytes(lp.play_mode.to_short() as u16);
    let b = be16_bytes(unsigned16(lp.begin_loop));
    let c = be16_bytes(unsigned16(lp.end_loop));
    lemma_lies_split(d, at, a + b, c);
    lemma_lies_split(d, at, a, b);
    lemma_lies_be16(d, at, lp.play_mode.to_short() as u16);
    lemma_lies_be16(d, at + 2, unsigned16(lp.begin_loop));
    lemma_lies_be16(d, at + 4, unsigned16(lp.end_loop));
    law_signed_round_trip(lp.begin_loop, 0);
    law_signed_round_trip(lp.end_loop, 0);
}

/// An instrument that is read has its numbers in their ranges, and one whose numbers are in
/// their ranges is read back as it was written.
pub proof fn law_instrument_round_trip(d: Seq<u8>, i: InstrumentChunk)
    ensures
        instrument_read(d) matches Ok(got) ==> in_range(got),
        in_range(i) ==> instrument_read(instrument_bytes(i)) == Ok::<InstrumentChunk, AiffError>(i),
{
    if in_range(i) {
        let d = instrument_bytes(i);
        let head = seq![
            i.base_note,
            unsigned8(i.detune),
            i.low_note,
            i.high_note,
            i.low_velocity,
            i.high_velocity,
        ];
        let g = be16_bytes(unsigned16(i.gain));
        let s = loop_bytes(i.sustain_loop);
        let r = loop_bytes(i.release_loop);
        assert(lies_at(d, 0, head + g + s + r)) by {
            assert(d.subrange(0, d.len() as int) =~= d);
        }
        lemma_lies_split(d, 0, head + g + s, r);
        lemma_lies_split(d, 0, head + g, s);
        lemma_lies_split(d, 0, head, g);
        lemma_lies_byte(d, 0, head, 0);
        lemma_lies_byte(d, 0, head, 1);
        lemma_lies_byte(d, 0, head, 2);
        lemma_lies_byte(d, 0, head, 3);
        lemma_lies_byte(d, 0, head, 4);
        lemma_lies_byte(d, 0, head, 5);
        lemma_lies_be16(d, 6, unsigned16(i.gain));
        lemma_loop_back(d, 8, i.sustain_loop);
        lemma_loop_back(d, 14, i.release_loop);
        law_signed_round_trip(i.gain, i.detune);
    }
}

proof fn lemma_marker_found(ms: Seq<MarkerData>, id: i16, i: int)
    ensures
        marker_from(ms, id, i) matches Some(m) ==> m.id == id && ms.contains(m),
    decreases ms.len() - i,
{
    if 0 <= i < ms.len() && ms[i].id != id {
        lemma_marker_found(ms, id, i + 1);
    }
}

/// A loop that is resolved is one that is played, and runs forward between two markers of the
/// chunk, those that it names.
pub proof fn law_resolved_loop_runs_forward(lp: Loop, ms: Seq<MarkerData>)
    ensures
        resolved(lp, ms) matches Some(l) ==> {
            &&& l.play_mode == lp.play_mode
            &&& l.play_mode != PlayMode::NoLooping
            &&& l.begin.id == lp.begin_loop
            &&& l.end.id == lp.end_loop
            &&& ms.contains(l.begin)
            &&& ms.contains(l.end)
            &&& l.begin.position < l.end.position
        },
{
    lemma_marker_found(ms, lp.begin_loop, 0);
    lemma_marker_found(ms, lp.end_loop, 0);
}

} // verus!
