//! Palettes and viewport modes.

use vstd::prelude::*;

verus! {

/// `CAMG`, the viewport mode of the picture.
#[derive(Clone, Copy, Debug, PartialEq, Eq, Structural)]
pub struct Camg {
    /// The mode word.
    pub mode: u32,
}

impl Camg {
    /// Extra half-brite: the upper half of the indices stands for the lower half at
    /// half the brightness.
    #[verifier::allow_in_spec]
    pub fn is_ehb(&self) -> bool
        returns
            self.mode / 0x80 % 2 == 1,
    {
        self.mode / 0x80 % 2 == 1
    }

    /// Hold and modify: an index changes one channel of the colour to its left.
    #[verifier::allow_in_spec]
    pub fn is_ham(&self) -> bool
        returns
            self.mode / 0x800 % 2 == 1,
    {
        self.mode / 0x800 % 2 == 1
    }
}

impl Default for Camg {
    fn default() -> (r: Self)
        ensures
            r.mode == 0,
    {
        Camg { mode: 0 }
    }
}

/// A palette entry; black past the end.
pub open spec fn entry(pal: Seq<[u8; 3]>, i: int) -> [u8; 3] {
    if 0 <= i < pal.len() {
        pal[i]
    } else {
        [0u8, 0u8, 0u8]
    }
}

/// A colour at half the brightness.
pub open spec fn half(c: [u8; 3]) -> [u8; 3] {
    [c[0] / 2, c[1] / 2, c[2] / 2]
}

/// The 64 colours of an extra half-brite palette.
pub open spec fn ehb_palette(pal: Seq<[u8; 3]>) -> Seq<[u8; 3]> {
    Seq::new(
        64,
        |i: int|
            if i < 32 {
                entry(pal, i)
            } else {
                half(entry(pal, i - 32))
            },
    )
}

/// The colours that indices stand for.
pub open spec fn colours(pal: Seq<[u8; 3]>, camg: Camg) -> Seq<[u8; 3]> {
    if camg.is_ehb() && pal.len() <= 32 {
        ehb_palette(pal)
    } else {
        pal
    }
}

/// Reads a palette entry.
pub fn read_entry(pal: &[[u8; 3]], i: usize) -> (c: [u8; 3])
    ensures
        c == entry(pal@, i as int),
{
    if i < pal.len() {
        pal[i]
    } else {
        [0u8, 0u8, 0u8]
    }
}

/// Adds the half-bright colours to a palette of up to 32.
pub fn expand_ehb_palette(pal: &[[u8; 3]]) -> (out: Vec<[u8; 3]>)
    ensures
        out@ == ehb_palette(pal@),
{
    let mut out: Vec<[u8; 3]> = Vec::new();
    let mut i: usize = 0;
    while i < 64
        invariant
            i <= 64,
            out@ == ehb_palette(pal@).take(i as int),
        decreases 64 - i,
    {
        let ghost out0 = out@;
        if i < 32 {
            out.push(read_entry(pal, i));
        } else {
            let c: [u8; 3] = read_entry(pal, i - 32);
            out.push([c[0] / 2, c[1] / 2, c[2] / 2]);
        }
        i += 1;
        assert(out@ =~= ehb_palette(pal@).take(i as int));
    }
    assert(out@ =~= ehb_palette(pal@));
    out
}

/// The colours that indices stand for.
pub fn expand_palette(pal: &[[u8; 3]], camg: Camg) -> (out: Vec<[u8; 3]>)
    ensures
        out@ == colours(pal@, camg),
{
    if camg.is_ehb() && pal.len() <= 32 {
        expand_ehb_palette(pal)
    } else {
        vstd::slice::slice_to_vec(pal)
    }
}

/// Squared difference of two channels.
pub open spec fn channel_distance(a: u8, b: u8) -> int {
    (a - b) * (a - b)
}

/// Squared distance of two colours.
pub open spec fn distance(c: [u8; 3], d: [u8; 3]) -> int {
    channel_distance(c[0], d[0]) + channel_distance(c[1], d[1]) + channel_distance(c[2], d[2])
}

/// The first of the entries below `n` that is nearest to a colour.
pub open spec fn nearest(pal: Seq<[u8; 3]>, c: [u8; 3], n: int) -> int
    decreases n,
{
    if n <= 1 {
        0
    } else {
        let k = nearest(pal, c, n - 1);
        if distance(c, pal[n - 1]) < distance(c, pal[k]) {
            n - 1
        } else {
            k
        }
    }
}

/// The nearest entry is the first of those at the least distance.
pub proof fn law_nearest(pal: Seq<[u8; 3]>, c: [u8; 3], n: int)
    requires
        0 < n <= pal.len(),
    ensures
        0 <= nearest(pal, c, n) < n,
        forall|j: int|
            0 <= j < n ==> distance(c, pal[nearest(pal, c, n)]) <= #[trigger] distance(c, pal[j]),
        forall|j: int|
            0 <= j < nearest(pal, c, n) ==> distance(c, pal[nearest(pal, c, n)])
                < #[trigger] distance(c, pal[j]),
    decreases n,
{
    if n > 1 {
        law_nearest(pal, c, n - 1);
    }
}

/// A colour of the palette is found again.
pub proof fn lemma_nearest_exact(pal: Seq<[u8; 3]>, c: [u8; 3], j: int)
    requires
        0 <= j < pal.len(),
        pal[j] == c,
    ensures
        0 <= nearest(pal, c, pal.len() as int) <= j,
        pal[nearest(pal, c, pal.len() as int)] == c,
{
    let k = nearest(pal, c, pal.len() as int);
    law_nearest(pal, c, pal.len() as int);
    assert(distance(c, pal[j]) == 0);
    let d = pal[k];
    assert(c[0] == d[0] && c[1] == d[1] && c[2] == d[2]) by (nonlinear_arith)
        requires
            (c[0] - d[0]) * (c[0] - d[0]) + (c[1] - d[1]) * (c[1] - d[1]) + (c[2] - d[2]) * (c[2]
                - d[2]) <= 0,
    ;
    assert(c =~= d);
}

fn squared_difference(a: u8, b: u8) -> (r: u32)
    ensures
        r == channel_distance(a, b),
        r <= 0xFE01,
{
    let d: u32 = if a > b {
        (a - b) as u32
    } else {
        (b - a) as u32
    };
    assert(d * d <= 255 * 255) by (nonlinear_arith)
        requires
            d <= 255,
    ;
    assert(d * d == (a - b) * (a - b)) by (nonlinear_arith)
        requires
            d == a - b || d == b - a,
    ;
    d * d
}

/// Finds the entry nearest to a colour; zero where there is none.
pub fn find_nearest(pal: &[[u8; 3]], c: [u8; 3]) -> (k: usize)
    ensures
        k == nearest(pal@, c, pal@.len() as int),
        pal@.len() > 0 ==> k < pal@.len(),
{
    let n: usize = pal.len();
    let mut best: usize = 0;
    let mut best_distance: u32 = 0xFFFF_FFFF;
    let mut i: usize = 0;
    while i < n
        invariant
            n == pal@.len(),
            i <= n,
            best == nearest(pal@, c, i as int),
            i > 0 ==> best < i && best_distance == distance(c, pal@[best as int]),
            i == 0 ==> best_distance == 0xFFFF_FFFF,
        decreases n - i,
    {
        let p: [u8; 3] = pal[i];
        let d: u32 = squared_difference(c[0], p[0]) + squared_difference(c[1], p[1])
            + squared_difference(c[2], p[2]);
        assert(d == distance(c, pal@[i as int]));
        if d < best_distance {
            best_distance = d;
            best = i;
        }
        i += 1;
    }
    best
}

/// A channel of `bits` bits, four or six, widened to eight.
pub open spec fn widened(v: int, bits: int) -> int {
    if bits == 4 {
        v * 17
    } else {
        v * 4 + v / 16
    }
}

/// What a hold-and-modify index makes of the colour to its left. Above the `bits` low
/// bits, zero takes a palette entry, one sets blue, two red and three green.
pub open spec fn ham_step(left: [u8; 3], v: u8, pal: Seq<[u8; 3]>, bits: int) -> [u8; 3] {
    let unit: int = if bits == 4 {
        16
    } else {
        64
    };
    let low = v as int % unit;
    let code = v as int / unit % 4;
    let wide = widened(low, bits) as u8;
    if code == 0 {
        entry(pal, low)
    } else if code == 1 {
        [left[0], left[1], wide]
    } else if code == 2 {
        [wide, left[1], left[2]]
    } else {
        [left[0], wide, left[2]]
    }
}

/// The colour of pixel `x` of a hold-and-modify line, which starts from the first
/// palette entry.
pub open spec fn ham_colour(idx: Seq<u8>, pal: Seq<[u8; 3]>, bits: int, x: int) -> [u8; 3]
    decreases x,
{
    let left = if x <= 0 {
        entry(pal, 0)
    } else {
        ham_colour(idx, pal, bits, x - 1)
    };
    ham_step(left, idx[x], pal, bits)
}

/// The colours of a hold-and-modify line.
pub open spec fn ham_row(idx: Seq<u8>, pal: Seq<[u8; 3]>, bits: int) -> Seq<[u8; 3]> {
    Seq::new(idx.len(), |x: int| ham_colour(idx, pal, bits, x))
}

/// Renders a hold-and-modify line.
pub fn expand_ham_row(idx: &[u8], pal: &[[u8; 3]], bits: u8) -> (out: Vec<[u8; 3]>)
    requires
        bits == 4 || bits == 6,
    ensures
        out@ == ham_row(idx@, pal@, bits as int),
{
    let n: usize = idx.len();
    let unit: u8 = if bits == 4 {
        16
    } else {
        64
    };
    let mut out: Vec<[u8; 3]> = Vec::new();
    let mut left: [u8; 3] = read_entry(pal, 0);
    let mut x: usize = 0;
    while x < n
        invariant
            n == idx@.len(),
            bits == 4 || bits == 6,
            unit == if bits == 4 {
                16int
            } else {
                64int
            },
            x <= n,
            out@ == ham_row(idx@, pal@, bits as int).take(x as int),
            left == if x == 0 {
                entry(pal@, 0)
            } else {
                ham_colour(idx@, pal@, bits as int, x - 1)
            },
        decreases n - x,
    {
        let ghost out0 = out@;
        let v: u8 = idx[x];
        let low: u8 = v % unit;
        let code: u8 = v / unit % 4;
        let wide: u8 = if bits == 4 {
            low * 17
        } else {
            low * 4 + low / 16
        };
        let c: [u8; 3] = if code == 0 {
            read_entry(pal, low as usize)
        } else if code == 1 {
            [left[0], left[1], wide]
        } else if code == 2 {
            [wide, left[1], left[2]]
        } else {
            [left[0], wide, left[2]]
        };
        assert(c == ham_step(left, v, pal@, bits as int));
        out.push(c);
        left = c;
        x += 1;
        assert(out@ =~= ham_row(idx@, pal@, bits as int).take(x as int));
    }
    assert(out@ =~= ham_row(idx@, pal@, bits as int));
    out
}

} // verus!
