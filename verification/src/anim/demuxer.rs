//! Playing an animation frame by frame.

use vstd::prelude::*;
use crate::anim::file::{anim_has_room, open_timed, pictures, timed_opened, TimedAnim};
use crate::bytes::copy_range;
use crate::error::IffError;
use crate::ilbm::image::Picture;

verus! {

/// Name of the format.
pub const FORMAT_NAME: &'static str = "iff_anim";

/// One frame of an animation.
#[derive(Clone, Debug, PartialEq, Eq)]
pub struct VideoPacket {
    /// When the frame is shown, in sixtieths of a second.
    pub pts: i64,
    /// When the frame is decoded, in sixtieths of a second.
    pub dts: i64,
    /// Number of frames, one.
    pub duration: i64,
    /// Whether it can be shown without others.
    pub keyframe: bool,
    /// The pixels, four bytes each.
    pub data: Vec<u8>,
}

/// Plays an animation; time is counted in sixtieths of a second.
pub struct AnimDemuxer {
    anim: TimedAnim,
    next: usize,
}

/// When frame `i` is shown: its number times the `rel_time` of its header, so that frames
/// of one `rel_time` follow each other at that distance.
pub open spec fn frame_time(times: Seq<u32>, i: int) -> int {
    i * times[i]
}

/// Where all frames behind the leading picture have one `rel_time`, they are shown at its
/// multiples.
pub proof fn law_even_times(times: Seq<u32>, rel_time: u32, i: int)
    requires
        0 <= i < times.len(),
        forall|k: int| 1 <= k < times.len() ==> #[trigger] times[k] == rel_time,
    ensures
        frame_time(times, i) == i * rel_time,
{
    if i > 0 {
        assert(times[i] == rel_time);
    } else {
        assert(0 * times[0] == 0 * rel_time) by (nonlinear_arith);
    }
}

impl AnimDemuxer {
    /// The frames.
    pub closed spec fn frames(&self) -> Seq<Picture> {
        pictures(self.anim.image.frames@)
    }

    /// The `rel_time` of every frame's header; zero for the leading picture.
    pub closed spec fn rel_times(&self) -> Seq<u32> {
        self.anim.rel_times@
    }

    /// There is a frame, every frame has a `rel_time`, and every time can be counted.
    pub open spec fn valid(&self) -> bool {
        &&& 0 < self.frames().len() < 0x2000_0000
        &&& self.rel_times().len() == self.frames().len()
    }

    /// Number of the frame that comes next.
    pub closed spec fn at(&self) -> int {
        self.next as int
    }

    /// Opens the FORM ANIM that a stream starts with.
    pub fn open(bytes: &[u8]) -> (r: Result<Self, IffError>)
        requires
            anim_has_room(bytes@),
        ensures
            match timed_opened(bytes@) {
                Ok(reel) => {
                    &&& r matches Ok(d)
                    &&& d.frames() == reel.frames
                    &&& d.rel_times() == reel.times
                    &&& d.at() == 0
                    &&& d.valid()
                },
                Err(e) => r matches Err(f) && f == e,
            },
    {
        match open_timed(bytes) {
            Ok(anim) => Ok(AnimDemuxer { anim, next: 0 }),
            Err(e) => Err(e),
        }
    }

    /// Width of the frames.
    pub fn width(&self) -> (w: u32)
        requires
            self.valid(),
        ensures
            w == self.frames()[0].bmhd.width,
    {
        self.anim.image.frames[0].bmhd.width as u32
    }

    /// Height of the frames.
    pub fn height(&self) -> (h: u32)
        requires
            self.valid(),
        ensures
            h == self.frames()[0].bmhd.height,
    {
        self.anim.image.frames[0].bmhd.height as u32
    }

    /// Number of frames.
    pub fn frame_count(&self) -> (n: usize)
        ensures
            n == self.frames().len(),
    {
        self.anim.image.frames.len()
    }

    /// Hands out the next frame; nothing behind the last.
    pub fn next_packet(&mut self) -> (r: Option<VideoPacket>)
        requires
            old(self).valid(),
        ensures
            final(self).valid(),
            final(self).frames() == old(self).frames(),
            final(self).rel_times() == old(self).rel_times(),
            if old(self).at() < old(self).frames().len() {
                &&& r matches Some(p)
                &&& p.data@ == old(self).frames()[old(self).at()].rgba
                &&& p.pts == frame_time(old(self).rel_times(), old(self).at())
                &&& p.pts == old(self).at() * old(self).rel_times()[old(self).at()]
                &&& p.dts == p.pts
                &&& p.duration == 1
                &&& p.keyframe
                &&& final(self).at() == old(self).at() + 1
            } else {
                &&& r is None
                &&& final(self).at() == old(self).at()
            },
    {
        let i: usize = self.next;
        if i >= self.anim.image.frames.len() {
            return None;
        }
        let rgba: &Vec<u8> = &self.anim.image.frames[i].rgba;
        let data: Vec<u8> = copy_range(rgba.as_slice(), 0, rgba.len());
        assert(data@ =~= rgba@);
        let rel_time: u32 = self.anim.rel_times[i];
        assert(i * rel_time <= 0x2000_0000 * 0xFFFF_FFFF) by (nonlinear_arith)
            requires
                0 <= i <= 0x2000_0000,
                0 <= rel_time <= 0xFFFF_FFFF,
        ;
        assert(0 <= i * rel_time) by (nonlinear_arith)
            requires
                0 <= i,
                0 <= rel_time,
        ;
        let pts: i64 = i as i64 * rel_time as i64;
        self.next = i + 1;
        Some(VideoPacket { pts: pts, dts: pts, duration: 1, keyframe: true, data })
    }
}

} // verus!
