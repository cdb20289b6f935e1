//! Sound data without compression.

use vstd::prelude::*;
use crate::aiff::common::{
    sample_bytes, COMPRESSION_FL32, COMPRESSION_FL32_UC, COMPRESSION_FL64, COMPRESSION_FL64_UC,
    COMPRESSION_NONE, COMPRESSION_RAW, COMPRESSION_SOWT, COMPRESSION_TWOS, Common, CommonChunk,
};
use crate::aiff::error::AiffError;
use crate::bytes::{be32, be64, read_be32, read_be64, same_id, signed32, to_signed32};

verus! {

/// The samples of each channel. Floating-point samples are kept as their bits.
#[derive(Clone, Debug, PartialEq, Eq)]
pub enum PcmSamples {
    /// Integers, with the most significant bits of the sample in those of the integer.
    I32(Vec<Vec<i32>>),
    /// The bits of single-precision numbers.
    F32(Vec<Vec<u32>>),
    /// The bits of double-precision numbers.
    F64(Vec<Vec<u64>>),
}

/// The samples of each channel.
#[verifier::ext_equal]
pub enum Samples {
    /// Integers.
    I32(Seq<Seq<i32>>),
    /// The bits of single-precision numbers.
    F32(Seq<Seq<u32>>),
    /// The bits of double-precision numbers.
    F64(Seq<Seq<u64>>),
}

/// The planes that a list of lists holds.
pub open spec fn channel_planes<T>(v: Seq<Vec<T>>) -> Seq<Seq<T>> {
    v.map_values(|p: Vec<T>| p@)
}

impl View for PcmSamples {
    type V = Samples;

    open spec fn view(&self) -> Samples {
        match self {
            PcmSamples::I32(v) => Samples::I32(channel_planes(v@)),
            PcmSamples::F32(v) => Samples::F32(channel_planes(v@)),
            PcmSamples::F64(v) => Samples::F64(channel_planes(v@)),
        }
    }
}

impl Samples {
    /// Number of channels.
    pub open spec fn channels(self) -> nat {
        match self {
            Samples::I32(p) => p.len(),
            Samples::F32(p) => p.len(),
            Samples::F64(p) => p.len(),
        }
    }

    /// Number of samples of a channel.
    pub open spec fn frames_of(self, channel: int) -> nat {
        match self {
            Samples::I32(p) => p[channel].len(),
            Samples::F32(p) => p[channel].len(),
            Samples::F64(p) => p[channel].len(),
        }
    }
}

impl PcmSamples {
    /// Number of channels.
    pub fn channels(&self) -> (n: usize)
        ensures
            n == self@.channels(),
    {
        match self {
            PcmSamples::I32(v) => v.len(),
            PcmSamples::F32(v) => v.len(),
            PcmSamples::F64(v) => v.len(),
        }
    }

    /// Number of samples of each channel: that of the first, and zero where there is none.
    pub fn frames(&self) -> (n: usize)
        ensures
            n == if self@.channels() == 0 {
                0
            } else {
                self@.frames_of(0)
            },
    {
        match self {
            PcmSamples::I32(v) => if v.len() == 0 {
                0
            } else {
                v[0].len()
            },
            PcmSamples::F32(v) => if v.len() == 0 {
                0
            } else {
                v[0].len()
            },
            PcmSamples::F64(v) => if v.len() == 0 {
                0
            } else {
                v[0].len()
            },
        }
    }
}

/// How many sample frames a payload holds, with samples of so many bytes: as many as the common
/// chunk says, or, where the payload is too short for them, as many as it has room for.
pub open spec fn frames_in(c: Common, payload: int, bytes: int) -> Result<int, AiffError> {
    let frame_size = bytes * c.num_channels;
    let needed = c.num_sample_frames * frame_size;
    if frame_size == 0 {
        Err(AiffError::InvalidValue { what: "frame_size", value: 0 })
    } else if needed > usize::MAX {
        Err(
            AiffError::InvalidValue {
                what: "numSampleFrames",
                value: c.num_sample_frames as i64,
            },
        )
    } else if payload >= needed {
        Ok(c.num_sample_frames as int)
    } else if payload % frame_size != 0 {
        Err(AiffError::SsndUnaligned { payload: payload as usize, frame_size: frame_size as usize })
    } else {
        Ok(payload / frame_size)
    }
}

/// Where the sample of a channel in a frame starts.
pub open spec fn sample_at(frame: int, channel: int, channels: int, bytes: int) -> int {
    (frame * channels + channel) * bytes
}

/// The planes of `frames` frames, each sample read by `f` where it starts.
pub open spec fn sampled<T>(f: spec_fn(int) -> T, channels: int, frames: int, bytes: int) -> Seq<
    Seq<T>,
> {
    Seq::new(
        channels as nat,
        |channel: int|
            Seq::new(
                frames as nat,
                |frame: int| f(sample_at(frame, channel, channels, bytes)),
            ),
    )
}

/// The integer whose bytes, most significant first, are given.
pub open spec fn from_bytes32(a: u8, b: u8, c: u8, d: u8) -> i32 {
    signed32((a * 0x100_0000 + b * 0x1_0000 + c * 0x100 + d) as u32)
}

/// Byte `k` of the sample of `n` bytes at `at`, most significant first; zero from `n` on.
pub open spec fn high_byte(d: Seq<u8>, at: int, n: int, k: int) -> u8 {
    if k < n {
        d[at + k]
    } else {
        0
    }
}

/// Byte `k` of the sample of `n` bytes at `at`, whose least significant byte comes first,
/// counted from the most significant; zero from `n` on.
pub open spec fn reversed_byte(d: Seq<u8>, at: int, n: int, k: int) -> u8 {
    if k < n {
        d[at + (n - 1 - k)]
    } else {
        0
    }
}

/// The sample of `n` bytes at `at`, in the most significant bytes of an integer.
pub open spec fn be_sample(d: Seq<u8>, at: int, n: int) -> i32 {
    from_bytes32(
        high_byte(d, at, n, 0),
        high_byte(d, at, n, 1),
        high_byte(d, at, n, 2),
        high_byte(d, at, n, 3),
    )
}

/// The sample of `n` bytes at `at`, whose least significant byte comes first, in the most
/// significant bytes of an integer.
pub open spec fn le_sample(d: Seq<u8>, at: int, n: int) -> i32 {
    from_bytes32(
        reversed_byte(d, at, n, 0),
        reversed_byte(d, at, n, 1),
        reversed_byte(d, at, n, 2),
        reversed_byte(d, at, n, 3),
    )
}

/// The unsigned sample of eight bits at `at`, in the most significant byte of an integer.
pub open spec fn offset_sample(d: Seq<u8>, at: int) -> i32 {
    ((d[at] - 128) * 0x100_0000) as i32
}

/// How the integer samples of a compression are written.
#[derive(Clone, Copy, Debug, PartialEq, Eq, Structural)]
pub enum Layout {
    /// Most significant byte first.
    BigEndian,
    /// Least significant byte first.
    LittleEndian,
    /// One unsigned byte.
    Offset,
}

impl Layout {
    /// The sample of `n` bytes at `at`.
    pub open spec fn sample(self, d: Seq<u8>, at: int, n: int) -> i32 {
        match self {
            Layout::BigEndian => be_sample(d, at, n),
            Layout::LittleEndian => le_sample(d, at, n),
            Layout::Offset => offset_sample(d, at),
        }
    }
}

/// The compression of the sound data; an `AIFF` has `NONE`.
pub open spec fn compression_of(c: Common) -> [u8; 4] {
    match c.compression_type {
        Some(t) => t,
        None => COMPRESSION_NONE,
    }
}

/// Whether samples of a compression can be decoded.
pub open spec fn is_pcm(t: [u8; 4]) -> bool {
    t == COMPRESSION_NONE || t == COMPRESSION_TWOS || t == COMPRESSION_SOWT || t == COMPRESSION_RAW
        || t == COMPRESSION_FL32 || t == COMPRESSION_FL32_UC || t == COMPRESSION_FL64 || t
        == COMPRESSION_FL64_UC
}

/// Integer samples of `bytes` bytes each.
pub open spec fn integers(c: Common, d: Seq<u8>, layout: Layout, bytes: int) -> Result<
    Samples,
    AiffError,
> {
    match frames_in(c, d.len() as int, bytes) {
        Ok(frames) => Ok(
            Samples::I32(
                sampled(
                    |at: int| layout.sample(d, at, bytes),
                    c.num_channels as int,
                    frames,
                    bytes,
                ),
            ),
        ),
        Err(e) => Err(e),
    }
}

/// The samples that sound data hold.
pub open spec fn decoded(c: Common, d: Seq<u8>) -> Result<Samples, AiffError> {
    let t = compression_of(c);
    let bytes = sample_bytes(c.sample_size as int);
    if t == COMPRESSION_NONE || t == COMPRESSION_TWOS {
        integers(c, d, Layout::BigEndian, bytes)
    } else if t == COMPRESSION_SOWT {
        integers(c, d, Layout::LittleEndian, bytes)
    } else if t == COMPRESSION_RAW {
        if c.sample_size != 8 {
            Err(
                AiffError::InvalidValue {
                    what: "sampleSize for `raw ` compressionType",
                    value: c.sample_size as i64,
                },
            )
        } else {
            integers(c, d, Layout::Offset, 1)
        }
    } else if t == COMPRESSION_FL32 || t == COMPRESSION_FL32_UC {
        if c.sample_size != 32 {
            Err(
                AiffError::InvalidValue {
                    what: "sampleSize for `fl32` compressionType",
                    value: c.sample_size as i64,
                },
            )
        } else {
            match frames_in(c, d.len() as int, 4) {
                Ok(frames) => Ok(
                    Samples::F32(
                        sampled(|at: int| be32(d, at), c.num_channels as int, frames, 4),
                    ),
                ),
                Err(e) => Err(e),
            }
        }
    } else if t == COMPRESSION_FL64 || t == COMPRESSION_FL64_UC {
        if c.sample_size != 64 && c.sample_size != 32 {
            Err(
                AiffError::InvalidValue {
                    what: "sampleSize for `fl64` compressionType",
                    value: c.sample_size as i64,
                },
            )
        } else {
            match frames_in(c, d.len() as int, 8) {
                Ok(frames) => Ok(
                    Samples::F64(
                        sampled(|at: int| be64(d, at), c.num_channels as int, frames, 8),
                    ),
                ),
                Err(e) => Err(e),
            }
        }
    } else {
        Err(AiffError::UnsupportedPcmCompression(t))
    }
}

/// Whether samples of a compression are integers of the size that the common chunk says.
pub open spec fn has_sized_integers(t: [u8; 4]) -> bool {
    t == COMPRESSION_NONE || t == COMPRESSION_TWOS || t == COMPRESSION_SOWT
}

/// Whether no integer sample of more than 32 bits has to be decoded.
pub open spec fn samples_fit(c: Common, d: Seq<u8>) -> bool {
    has_sized_integers(compression_of(c)) && c.sample_size > 32 ==> match frames_in(
        c,
        d.len() as int,
        sample_bytes(c.sample_size as int),
    ) {
        Ok(frames) => frames == 0,
        Err(_) => true,
    }
}

/// Whether samples of a compression can be decoded.
pub fn is_pcm_compression(compression_type: [u8; 4]) -> (r: bool)
    ensures
        r == is_pcm(compression_type),
{
    same_id(compression_type, COMPRESSION_NONE) || same_id(compression_type, COMPRESSION_TWOS)
        || same_id(compression_type, COMPRESSION_SOWT) || same_id(compression_type, COMPRESSION_RAW)
        || same_id(compression_type, COMPRESSION_FL32) || same_id(
        compression_type,
        COMPRESSION_FL32_UC,
    ) || same_id(compression_type, COMPRESSION_FL64) || same_id(
        compression_type,
        COMPRESSION_FL64_UC,
    )
}

/// How many sample frames a payload holds.
pub fn frame_count(common: &CommonChunk, payload: &[u8], bytes_per_sample: usize) -> (r: Result<
    usize,
    AiffError,
>)
    requires
        bytes_per_sample <= 0x2000,
    ensures
        match r {
            Ok(n) => frames_in(common@, payload@.len() as int, bytes_per_sample as int) == Ok::<
                int,
                AiffError,
            >(n as int),
            Err(e) => frames_in(common@, payload@.len() as int, bytes_per_sample as int) == Err::<
                int,
                AiffError,
            >(e),
        },
{
    assert(0 <= bytes_per_sample * common.num_channels <= 0x2000 * 0xFFFF) by (nonlinear_arith)
        requires
            0 <= bytes_per_sample <= 0x2000,
            0 <= common.num_channels <= 0xFFFF,
    ;
    let frame_size: usize = bytes_per_sample * common.num_channels as usize;
    if frame_size == 0 {
        return Err(AiffError::InvalidValue { what: "frame_size", value: 0 });
    }
    let declared: usize = common.num_sample_frames as usize;
    let needed: usize = match declared.checked_mul(frame_size) {
        Some(n) => n,
        None => {
            return Err(
                AiffError::InvalidValue {
                    what: "numSampleFrames",
                    value: common.num_sample_frames as i64,
                },
            );
        },
    };
    let n: usize = payload.len();
    if n >= needed {
        return Ok(declared);
    }
    if n % frame_size != 0 {
        return Err(AiffError::SsndUnaligned { payload: n, frame_size });
    }
    Ok(n / frame_size)
}

proof fn lemma_sample_inside(
    frame: int,
    frames: int,
    channel: int,
    channels: int,
    bytes: int,
    total: int,
)
    requires
        0 <= frame < frames,
        0 <= channel < channels,
        0 < bytes,
        frames * (bytes * channels) <= total,
    ensures
        0 <= frame * channels,
        0 <= frame * channels + channel <= total,
        0 <= sample_at(frame, channel, channels, bytes),
        sample_at(frame, channel, channels, bytes) + bytes <= total,
{
    let k = frame * channels + channel;
    assert(0 <= frame * channels) by (nonlinear_arith)
        requires
            0 <= frame,
            0 <= channels,
    ;
    assert(k + 1 <= frames * channels) by (nonlinear_arith)
        requires
            k == frame * channels + channel,
            frame + 1 <= frames,
            0 <= channel < channels,
    ;
    assert((k + 1) * bytes <= (frames * channels) * bytes) by (nonlinear_arith)
        requires
            k + 1 <= frames * channels,
            0 < bytes,
    ;
    assert((frames * channels) * bytes == frames * (bytes * channels)) by (nonlinear_arith);
    assert((k + 1) * bytes == k * bytes + bytes) by (nonlinear_arith);
    assert(0 <= k <= k * bytes) by (nonlinear_arith)
        requires
            0 <= k,
            0 < bytes,
    ;
}

fn high_byte_at(d: &[u8], at: usize, n: usize, k: usize) -> (b: u8)
    requires
        at + n <= d@.len(),
        k < 4,
    ensures
        b == high_byte(d@, at as int, n as int, k as int),
{
    let total: usize = d.len();
    assert(at + n <= total);
    if k < n {
        d[at + k]
    } else {
        0
    }
}

fn reversed_byte_at(d: &[u8], at: usize, n: usize, k: usize) -> (b: u8)
    requires
        at + n <= d@.len(),
        k < 4,
    ensures
        b == reversed_byte(d@, at as int, n as int, k as int),
{
    let total: usize = d.len();
    assert(at + n <= total);
    if k < n {
        d[at + (n - 1 - k)]
    } else {
        0
    }
}

fn join(a: u8, b: u8, c: u8, d: u8) -> (x: i32)
    ensures
        x == from_bytes32(a, b, c, d),
{
    to_signed32(a as u32 * 0x100_0000 + b as u32 * 0x1_0000 + c as u32 * 0x100 + d as u32)
}

fn read_sample(layout: Layout, d: &[u8], at: usize, n: usize) -> (x: i32)
    requires
        0 < n,
        at + n <= d@.len(),
    ensures
        x == layout.sample(d@, at as int, n as int),
{
    match layout {
        Layout::BigEndian => join(
            high_byte_at(d, at, n, 0),
            high_byte_at(d, at, n, 1),
            high_byte_at(d, at, n, 2),
            high_byte_at(d, at, n, 3),
        ),
        Layout::LittleEndian => join(
            reversed_byte_at(d, at, n, 0),
            reversed_byte_at(d, at, n, 1),
            reversed_byte_at(d, at, n, 2),
            reversed_byte_at(d, at, n, 3),
        ),
        Layout::Offset => (d[at] as i32 - 128) * 0x100_0000,
    }
}

/// Where the sound data stand and how they are divided.
struct Frames {
    channels: usize,
    frames: usize,
    bytes: usize,
}

impl Frames {
    spec fn fit(&self, payload: int) -> bool {
        0 < self.bytes && self.frames * (self.bytes * self.channels) <= payload
    }

    fn locate(&self, d: &[u8], frame: usize, channel: usize) -> (at: usize)
        requires
            self.fit(d@.len() as int),
            frame < self.frames,
            channel < self.channels,
        ensures
            at == sample_at(frame as int, channel as int, self.channels as int, self.bytes as int),
            at + self.bytes <= d@.len(),
    {
        let n: usize = d.len();
        proof {
            lemma_sample_inside(
                frame as int,
                self.frames as int,
                channel as int,
                self.channels as int,
                self.bytes as int,
                n as int,
            );
        }
        (frame * self.channels + channel) * self.bytes
    }
}

fn frames_of(common: &CommonChunk, payload: &[u8], bytes: usize) -> (r: Result<Frames, AiffError>)
    requires
        bytes <= 0x2000,
    ensures
        match r {
            Ok(s) => frames_in(common@, payload@.len() as int, bytes as int) == Ok::<
                int,
                AiffError,
            >(s.frames as int) && s.channels == common.num_channels && s.bytes == bytes && s.fit(
                payload@.len() as int,
            ),
            Err(e) => frames_in(common@, payload@.len() as int, bytes as int) == Err::<
                int,
                AiffError,
            >(e),
        },
{
    let frames: usize = match frame_count(common, payload, bytes) {
        Ok(n) => n,
        Err(e) => {
            return Err(e);
        },
    };
    let s: Frames = Frames { channels: common.num_channels as usize, frames, bytes };
    proof {
        let size = bytes * common.num_channels;
        let n = payload@.len() as int;
        assert(size >= 0) by (nonlinear_arith)
            requires
                size == bytes * common.num_channels,
                bytes >= 0,
                common.num_channels >= 0,
        ;
        assert(size > 0 ==> (n / size) * size <= n) by (nonlinear_arith)
            requires
                n >= 0,
        ;
        assert(bytes > 0) by (nonlinear_arith)
            requires
                bytes * common.num_channels != 0,
                bytes >= 0,
        ;
    }
    Ok(s)
}

fn integer_planes(d: &[u8], s: &Frames, layout: Layout) -> (out: Vec<Vec<i32>>)
    requires
        s.fit(d@.len() as int),
    ensures
        channel_planes(out@) == sampled(
            |at: int| layout.sample(d@, at, s.bytes as int),
            s.channels as int,
            s.frames as int,
            s.bytes as int,
        ),
{
    let ghost f = |at: int| layout.sample(d@, at, s.bytes as int);
    let ghost want = sampled(f, s.channels as int, s.frames as int, s.bytes as int);
    let mut out: Vec<Vec<i32>> = Vec::new();
    let mut channel: usize = 0;
    while channel < s.channels
        invariant
            channel <= s.channels,
            s.fit(d@.len() as int),
            f == |at: int| layout.sample(d@, at, s.bytes as int),
            want == sampled(f, s.channels as int, s.frames as int, s.bytes as int),
            out@.len() == channel,
            forall|c: int| 0 <= c < channel ==> (#[trigger] out@[c])@ == want[c],
        decreases s.channels - channel,
    {
        let mut plane: Vec<i32> = Vec::new();
        let mut frame: usize = 0;
        while frame < s.frames
            invariant
                channel < s.channels,
                frame <= s.frames,
                s.fit(d@.len() as int),
                f == |at: int| layout.sample(d@, at, s.bytes as int),
                want == sampled(f, s.channels as int, s.frames as int, s.bytes as int),
                plane@.len() == frame,
                forall|k: int| 0 <= k < frame ==> #[trigger] plane@[k] == want[channel as int][k],
            decreases s.frames - frame,
        {
            let at: usize = s.locate(d, frame, channel);
            plane.push(read_sample(layout, d, at, s.bytes));
            frame += 1;
        }
        assert(plane@ =~= want[channel as int]);
        out.push(plane);
        channel += 1;
    }
    assert(channel_planes(out@) =~= want);
    out
}

fn single_planes(d: &[u8], s: &Frames) -> (out: Vec<Vec<u32>>)
    requires
        s.fit(d@.len() as int),
        s.bytes == 4,
    ensures
        channel_planes(out@) == sampled(|at: int| be32(d@, at), s.channels as int, s.frames as int, 4),
{
    let ghost f = |at: int| be32(d@, at);
    let ghost want = sampled(f, s.channels as int, s.frames as int, 4);
    let mut out: Vec<Vec<u32>> = Vec::new();
    let mut channel: usize = 0;
    while channel < s.channels
        invariant
            channel <= s.channels,
            s.fit(d@.len() as int),
            s.bytes == 4,
            f == |at: int| be32(d@, at),
            want == sampled(f, s.channels as int, s.frames as int, 4),
            out@.len() == channel,
            forall|c: int| 0 <= c < channel ==> (#[trigger] out@[c])@ == want[c],
        decreases s.channels - channel,
    {
        let mut plane: Vec<u32> = Vec::new();
        let mut frame: usize = 0;
        while frame < s.frames
            invariant
                channel < s.channels,
                frame <= s.frames,
                s.fit(d@.len() as int),
                s.bytes == 4,
                f == |at: int| be32(d@, at),
                want == sampled(f, s.channels as int, s.frames as int, 4),
                plane@.len() == frame,
                forall|k: int| 0 <= k < frame ==> #[trigger] plane@[k] == want[channel as int][k],
            decreases s.frames - frame,
        {
            let at: usize = s.locate(d, frame, channel);
            plane.push(read_be32(d, at));
            frame += 1;
        }
        assert(plane@ =~= want[channel as int]);
        out.push(plane);
        channel += 1;
    }
    assert(channel_planes(out@) =~= want);
    out
}

fn double_planes(d: &[u8], s: &Frames) -> (out: Vec<Vec<u64>>)
    requires
        s.fit(d@.len() as int),
        s.bytes == 8,
    ensures
        channel_planes(out@) == sampled(|at: int| be64(d@, at), s.channels as int, s.frames as int, 8),
{
    let ghost f = |at: int| be64(d@, at);
    let ghost want = sampled(f, s.channels as int, s.frames as int, 8);
    let mut out: Vec<Vec<u64>> = Vec::new();
    let mut channel: usize = 0;
    while channel < s.channels
        invariant
            channel <= s.channels,
            s.fit(d@.len() as int),
            s.bytes == 8,
            f == |at: int| be64(d@, at),
            want == sampled(f, s.channels as int, s.frames as int, 8),
            out@.len() == channel,
            forall|c: int| 0 <= c < channel ==> (#[trigger] out@[c])@ == want[c],
        decreases s.channels - channel,
    {
        let mut plane: Vec<u64> = Vec::new();
        let mut frame: usize = 0;
        while frame < s.frames
            invariant
                channel < s.channels,
                frame <= s.frames,
                s.fit(d@.len() as int),
                s.bytes == 8,
                f == |at: int| be64(d@, at),
                want == sampled(f, s.channels as int, s.frames as int, 8),
                plane@.len() == frame,
                forall|k: int| 0 <= k < frame ==> #[trigger] plane@[k] == want[channel as int][k],
            decreases s.frames - frame,
        {
            let at: usize = s.locate(d, frame, channel);
            plane.push(read_be64(d, at));
            frame += 1;
        }
        assert(plane@ =~= want[channel as int]);
        out.push(plane);
        channel += 1;
    }
    assert(channel_planes(out@) =~= want);
    out
}

/// The result of decoding, over the samples.
pub open spec fn samples_result(r: Result<PcmSamples, AiffError>) -> Result<Samples, AiffError> {
    match r {
        Ok(s) => Ok(s@),
        Err(e) => Err(e),
    }
}

fn decode_integers(common: &CommonChunk, samples: &[u8], layout: Layout, bytes: usize) -> (r: Result<
    PcmSamples,
    AiffError,
>)
    requires
        bytes <= 0x2000,
    ensures
        samples_result(r) == integers(common@, samples@, layout, bytes as int),
{
    match frames_of(common, samples, bytes) {
        Ok(s) => Ok(PcmSamples::I32(integer_planes(samples, &s, layout))),
        Err(e) => Err(e),
    }
}

/// Decodes sound data. The samples of each channel are taken out of the frames.
pub fn decode_pcm(common: &CommonChunk, samples: &[u8]) -> (r: Result<PcmSamples, AiffError>)
    requires
        samples_fit(common@, samples@),
    ensures
        samples_result(r) == decoded(common@, samples@),
{
    let t: [u8; 4] = match common.compression_type {
        Some(t) => t,
        None => COMPRESSION_NONE,
    };
    let bits: u16 = common.sample_size;
    let bytes: usize = (bits as usize + 7) / 8;
    if same_id(t, COMPRESSION_NONE) || same_id(t, COMPRESSION_TWOS) {
        decode_integers(common, samples, Layout::BigEndian, bytes)
    } else if same_id(t, COMPRESSION_SOWT) {
        decode_integers(common, samples, Layout::LittleEndian, bytes)
    } else if same_id(t, COMPRESSION_RAW) {
        if bits != 8 {
            return Err(
                AiffError::InvalidValue {
                    what: "sampleSize for `raw ` compressionType",
                    value: bits as i64,
                },
            );
        }
        decode_integers(common, samples, Layout::Offset, 1)
    } else if same_id(t, COMPRESSION_FL32) || same_id(t, COMPRESSION_FL32_UC) {
        if bits != 32 {
            return Err(
                AiffError::InvalidValue {
                    what: "sampleSize for `fl32` compressionType",
                    value: bits as i64,
                },
            );
        }
        match frames_of(common, samples, 4) {
            Ok(s) => Ok(PcmSamples::F32(single_planes(samples, &s))),
            Err(e) => Err(e),
        }
    } else if same_id(t, COMPRESSION_FL64) || same_id(t, COMPRESSION_FL64_UC) {
        if bits != 64 && bits != 32 {
            return Err(
                AiffError::InvalidValue {
                    what: "sampleSize for `fl64` compressionType",
                    value: bits as i64,
                },
            );
        }
        match frames_of(common, samples, 8) {
            Ok(s) => Ok(PcmSamples::F64(double_planes(samples, &s))),
            Err(e) => Err(e),
        }
    } else {
        Err(AiffError::UnsupportedPcmCompression(t))
    }
}

/// Samples are decoded where the compression allows it, and there is a plane for each channel,
/// each as long as the others.
pub proof fn law_planes(c: Common, d: Seq<u8>)
    ensures
        is_pcm(compression_of(c)) <==> decoded(c, d) != Err::<Samples, AiffError>(
            AiffError::UnsupportedPcmCompression(compression_of(c)),
        ),
        decoded(c, d) matches Ok(s) ==> s.channels() == c.num_channels && (forall|i: int, j: int|
            0 <= i < s.channels() && 0 <= j < s.channels() ==> s.frames_of(i) == s.frames_of(j)),
{
}

/// The unsigned integer that `n` bytes make, the first of them the most significant.
pub open spec fn unsigned_be(d: Seq<u8>, at: int, n: int) -> int
    decreases n,
{
    if n <= 0 {
        0
    } else {
        unsigned_be(d, at, n - 1) * 256 + d[at + n - 1]
    }
}

/// Whether `v` is the two's-complement integer of `n` bytes whose unsigned value is `raw`, moved
/// into the top `n` of four bytes.
pub open spec fn left_justified(v: i32, raw: int, n: int) -> bool {
    let span = if n == 1 {
        0x100int
    } else if n == 2 {
        0x1_0000
    } else if n == 3 {
        0x100_0000
    } else {
        0x1_0000_0000
    };
    let signed = if 2 * raw >= span {
        raw - span
    } else {
        raw
    };
    v * span == signed * 0x1_0000_0000
}

proof fn lemma_unsigned_be(d: Seq<u8>, at: int, n: int)
    requires
        1 <= n <= 4,
    ensures
        n == 1 ==> unsigned_be(d, at, n) == d[at],
        n == 2 ==> unsigned_be(d, at, n) == d[at] * 0x100 + d[at + 1],
        n == 3 ==> unsigned_be(d, at, n) == d[at] * 0x1_0000 + d[at + 1] * 0x100 + d[at + 2],
        n == 4 ==> unsigned_be(d, at, n) == d[at] * 0x100_0000 + d[at + 1] * 0x1_0000 + d[at + 2]
            * 0x100 + d[at + 3],
{
    reveal_with_fuel(unsigned_be, 5);
}

proof fn lemma_left_justified(d: Seq<u8>, at: int, n: int)
    requires
        1 <= n <= 4,
    ensures
        left_justified(be_sample(d, at, n), unsigned_be(d, at, n), n),
{
    lemma_unsigned_be(d, at, n);
    assert(n == 1 || n == 2 || n == 3 || n == 4);
}

/// Integer samples are interleaved: sample `c` of frame `f` is the one at place
/// `f * channels + c`. Its bytes come most significant first, and it fills the top bytes of an
/// integer.
pub proof fn law_integer_sample(c: Common, d: Seq<u8>, channel: int, frame: int)
    requires
        c.compression_type is None || c.compression_type == Some(COMPRESSION_NONE)
            || c.compression_type == Some(COMPRESSION_TWOS),
        1 <= c.sample_size <= 32,
        decoded(c, d) is Ok,
        0 <= channel < c.num_channels,
        0 <= frame < decoded(c, d)->Ok_0.frames_of(channel),
    ensures
        ({
            let n = (c.sample_size + 7) / 8;
            &&& decoded(c, d) matches Ok(Samples::I32(planes))
            &&& left_justified(
                planes[channel][frame],
                unsigned_be(d, (frame * c.num_channels + channel) * n, n),
                n,
            )
        }),
{
    let n = (c.sample_size + 7) / 8;
    assert(COMPRESSION_NONE[0] != COMPRESSION_RAW[0]);
    lemma_left_justified(d, (frame * c.num_channels + channel) * n, n);
}

/// Samples of the compression `raw ` are bytes with an offset of 128.
pub proof fn law_offset_sample(c: Common, d: Seq<u8>, channel: int, frame: int)
    requires
        c.compression_type == Some(COMPRESSION_RAW),
        decoded(c, d) is Ok,
        0 <= channel < c.num_channels,
        0 <= frame < decoded(c, d)->Ok_0.frames_of(channel),
    ensures
        c.sample_size == 8,
        decoded(c, d) matches Ok(Samples::I32(planes)) && planes[channel][frame] == (d[frame
            * c.num_channels + channel] - 128) * 0x100_0000,
{
    assert(COMPRESSION_RAW[0] != COMPRESSION_NONE[0]);
    assert(COMPRESSION_RAW[0] != COMPRESSION_TWOS[0]);
    assert(COMPRESSION_RAW[0] != COMPRESSION_SOWT[0]);
}

/// Floating-point samples are the bits of the file, most significant byte first.
pub proof fn law_float_sample(c: Common, d: Seq<u8>, channel: int, frame: int)
    requires
        decoded(c, d) is Ok,
        0 <= channel < c.num_channels,
        0 <= frame < decoded(c, d)->Ok_0.frames_of(channel),
    ensures
        c.compression_type == Some(COMPRESSION_FL32) || c.compression_type == Some(
            COMPRESSION_FL32_UC,
        ) ==> c.sample_size == 32 && (decoded(c, d) matches Ok(Samples::F32(planes))
            && planes[channel][frame] == unsigned_be(
            d,
            (frame * c.num_channels + channel) * 4,
            4,
        )),
        c.compression_type == Some(COMPRESSION_FL64) || c.compression_type == Some(
            COMPRESSION_FL64_UC,
        ) ==> (c.sample_size == 64 || c.sample_size == 32) && (decoded(c, d) matches Ok(
            Samples::F64(planes),
        )
            && planes[channel][frame] == unsigned_be(
            d,
            (frame * c.num_channels + channel) * 8,
            8,
        )),
{
    reveal_with_fuel(unsigned_be, 9);
    assert(COMPRESSION_FL32[0] != COMPRESSION_NONE[0] && COMPRESSION_FL32[0] != COMPRESSION_TWOS[0]
        && COMPRESSION_FL32[0] != COMPRESSION_SOWT[0] && COMPRESSION_FL32[0]
        != COMPRESSION_RAW[0]);
    assert(COMPRESSION_FL32_UC[0] != COMPRESSION_NONE[0] && COMPRESSION_FL32_UC[0]
        != COMPRESSION_TWOS[0] && COMPRESSION_FL32_UC[0] != COMPRESSION_SOWT[0]
        && COMPRESSION_FL32_UC[0] != COMPRESSION_RAW[0]);
    assert(COMPRESSION_FL64[0] == COMPRESSION_FL32[0] && COMPRESSION_FL64[2]
        != COMPRESSION_FL32[2]);
    assert(COMPRESSION_FL64_UC[0] == COMPRESSION_FL32_UC[0] && COMPRESSION_FL64_UC[2]
        != COMPRESSION_FL32_UC[2]);
    assert(COMPRESSION_FL64[0] != COMPRESSION_FL32_UC[0]);
    assert(COMPRESSION_FL64_UC[0] != COMPRESSION_FL32[0]);
}

/// There are as many frames as the common chunk announces where the sound data reach that far.
/// Otherwise there are as many as the sound data hold, which have to be whole frames.
pub proof fn law_frames_decoded(c: Common, d: Seq<u8>, n: int)
    requires
        c.compression_type is None || c.compression_type == Some(COMPRESSION_NONE)
            || c.compression_type == Some(COMPRESSION_TWOS) || c.compression_type == Some(
            COMPRESSION_SOWT,
        ),
        1 <= c.sample_size <= 32,
        n == (c.sample_size + 7) / 8 * c.num_channels,
        n > 0,
        c.num_sample_frames * n <= usize::MAX,
    ensures
        decoded(c, d) is Ok <==> d.len() >= c.num_sample_frames * n || d.len() % (n as nat) == 0,
        decoded(c, d) matches Ok(s) ==> {
            &&& d.len() >= c.num_sample_frames * n ==> s.frames_of(0) == c.num_sample_frames
            &&& d.len() < c.num_sample_frames * n ==> s.frames_of(0) * n == d.len()
        },
{
    assert(COMPRESSION_NONE[0] != COMPRESSION_RAW[0]);
    let payload = d.len() as int;
    vstd::arithmetic::div_mod::lemma_fundamental_div_mod(payload, n);
    assert(payload / n * n == n * (payload / n)) by (nonlinear_arith);
    assert(c.num_channels > 0) by (nonlinear_arith)
        requires
            n == (c.sample_size + 7) / 8 * c.num_channels,
            n > 0,
            c.num_channels >= 0,
    ;
    assert(payload / n >= 0) by (nonlinear_arith)
        requires
            payload >= 0,
            n > 0,
    ;
}

/// `twos` and `NONE` mean the same, and so does an `AIFF`, which names no compression.
pub proof fn law_twos_is_none(c: Common, d: Seq<u8>)
    ensures
        decoded(Common { compression_type: Some(COMPRESSION_TWOS), ..c }, d) == decoded(
            Common { compression_type: Some(COMPRESSION_NONE), ..c },
            d,
        ),
        decoded(Common { compression_type: None, ..c }, d) == decoded(
            Common { compression_type: Some(COMPRESSION_NONE), ..c },
            d,
        ),
{
}

/// The bytes of each sample of `n` bytes in reverse order. What is left at the end is kept.
pub open spec fn swapped(d: Seq<u8>, n: int) -> Seq<u8> {
    Seq::new(
        d.len(),
        |i: int|
            if n > 0 && i - i % n + n <= d.len() {
                d[i - i % n + (n - 1 - i % n)]
            } else {
                d[i]
            },
    )
}

proof fn lemma_swapped_sample(d: Seq<u8>, k: int, n: int)
    requires
        0 < n,
        0 <= k,
        k * n + n <= d.len(),
    ensures
        le_sample(swapped(d, n), k * n, n) == be_sample(d, k * n, n),
{
    let at = k * n;
    assert(at >= 0) by (nonlinear_arith)
        requires
            at == k * n,
            k >= 0,
            n > 0,
    ;
    assert forall|j: int| 0 <= j < 4 implies #[trigger] reversed_byte(swapped(d, n), at, n, j)
        == high_byte(d, at, n, j) by {
        if j < n {
            let i = at + (n - 1 - j);
            assert(i % n == n - 1 - j) by (nonlinear_arith)
                requires
                    i == k * n + (n - 1 - j),
                    0 <= j < n,
            ;
        }
    }
    assert(reversed_byte(swapped(d, n), at, n, 0) == high_byte(d, at, n, 0));
    assert(reversed_byte(swapped(d, n), at, n, 1) == high_byte(d, at, n, 1));
    assert(reversed_byte(swapped(d, n), at, n, 2) == high_byte(d, at, n, 2));
    assert(reversed_byte(swapped(d, n), at, n, 3) == high_byte(d, at, n, 3));
}

/// `sowt` means the same as `twos` with the bytes of each sample in reverse order.
pub proof fn law_sowt_is_reversed_twos(c: Common, d: Seq<u8>)
    ensures
        decoded(
            Common { compression_type: Some(COMPRESSION_SOWT), ..c },
            swapped(d, sample_bytes(c.sample_size as int)),
        ) == decoded(Common { compression_type: Some(COMPRESSION_TWOS), ..c }, d),
{
    let bytes = sample_bytes(c.sample_size as int);
    let channels = c.num_channels as int;
    let e = swapped(d, bytes);
    let n = d.len() as int;
    assert(COMPRESSION_SOWT[0] != COMPRESSION_TWOS[0]);
    assert(COMPRESSION_SOWT[0] != COMPRESSION_NONE[0]);
    match frames_in(c, n, bytes) {
        Ok(frames) => {
            let f = |at: int| Layout::LittleEndian.sample(e, at, bytes);
            let g = |at: int| Layout::BigEndian.sample(d, at, bytes);
            let x = sampled(f, channels, frames, bytes);
            let y = sampled(g, channels, frames, bytes);
            let size = bytes * channels;
            assert(bytes > 0) by (nonlinear_arith)
                requires
                    bytes >= 0,
                    bytes * channels != 0,
            ;
            assert(size >= 0) by (nonlinear_arith)
                requires
                    size == bytes * channels,
                    bytes >= 0,
                    channels >= 0,
            ;
            assert(size > 0 ==> (n / size) * size <= n) by (nonlinear_arith)
                requires
                    n >= 0,
            ;
            assert forall|channel: int, frame: int|
                0 <= channel < channels && 0 <= frame < frames implies #[trigger] x[channel][frame]
                == y[channel][frame] by {
                lemma_sample_inside(frame, frames, channel, channels, bytes, n);
                lemma_swapped_sample(d, frame * channels + channel, bytes);
            }
            assert forall|channel: int| 0 <= channel < channels implies #[trigger] x[channel]
                =~= y[channel] by {}
            assert(x =~= y);
        },
        Err(_) => {},
    }
}

} // verus!
