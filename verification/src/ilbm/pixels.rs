//! What the pixels of a bitmap have to be, read off its planes.

use vstd::prelude::*;
use crate::bitmap::{lemma_row_bounds, lemma_row_index, row_index, shaped};
use crate::ilbm::{Bmhd, Masking};
use crate::ilbm::colour::{
    colours, distance, entry, ham_colour, law_nearest, nearest, Camg,
};
use crate::ilbm::image::{lemma_pixel_bounds, pixel_at, shown, shown_colour, Picture};
use crate::ilbm::planar::{
    has_bit, index_at, lemma_index_back, lemma_index_bound, lemma_plane_row, line_indices, row_bit, weight,
};
use vstd::arithmetic::power2::{lemma2_to64, pow2};

verus! {

/// Whether the bit of pixel `x` is set in the row that scanline `y` has for plane `p`. A
/// scanline has a row per colour plane, and one more where there is a mask; the top bit of a
/// byte is its leftmost pixel.
pub open spec fn plane_bit(rs: Seq<Seq<u8>>, b: Bmhd, y: int, x: int, p: int) -> bool {
    let per_line: int = if b.masking == Masking::HasMask {
        b.n_planes + 1
    } else {
        b.n_planes as int
    };
    rs[y * per_line + p][x / 8] as int / (pow2((7 - x % 8) as nat) as int) % 2 == 1
}

/// Whether the planes spell the index `i` at a pixel: plane `p` has its bit of weight 2^p.
pub open spec fn spells(rs: Seq<Seq<u8>>, b: Bmhd, y: int, x: int, i: u8) -> bool {
    &&& i < pow2(b.n_planes as nat)
    &&& forall|p: int|
        0 <= p < b.n_planes ==> #[trigger] plane_bit(rs, b, y, x, p) == (i as int / (pow2(
            p as nat,
        ) as int) % 2 == 1)
}

proof fn lemma_weight(k: int)
    requires
        0 <= k <= 8,
    ensures
        pow2(k as nat) == weight(k),
{
    lemma2_to64();
    assert(k == 0 || k == 1 || k == 2 || k == 3 || k == 4 || k == 5 || k == 6 || k == 7 || k == 8);
}

proof fn lemma_plane_bit(rs: Seq<Seq<u8>>, b: Bmhd, y: int, x: int, p: int)
    requires
        shaped(rs, b),
        0 <= y < b.height,
        0 <= x < b.width,
        0 <= p < b.rows_per_line(),
    ensures
        row_bit(rs[row_index(b, y, p)], x) == plane_bit(rs, b, y, x, p),
        row_index(b, y, p) == row_index(b, y, 0) + p,
{
    lemma_row_bounds(b, y, p);
    lemma_weight(7 - x % 8);
    assert(rs[row_index(b, y, p)].len() == b.row_len());
}

proof fn lemma_spelled(rs: Seq<Seq<u8>>, b: Bmhd, y: int, x: int, i: u8)
    requires
        shaped(rs, b),
        0 <= y < b.height,
        0 <= x < b.width,
        b.n_planes <= 8,
        spells(rs, b, y, x, i),
    ensures
        index_at(rs, row_index(b, y, 0), x, b.n_planes as int) == i,
{
    let n = b.n_planes as int;
    let first = row_index(b, y, 0);
    lemma_weight(n);
    assert forall|p: int| 0 <= p < n && p < 8 implies row_bit(#[trigger] rs[first + p], x)
        == has_bit(i, p) by {
        lemma_weight(p);
        lemma_plane_bit(rs, b, y, x, p);
        assert(plane_bit(rs, b, y, x, p) == (i as int / (pow2(p as nat) as int) % 2 == 1));
    }
    lemma_index_back(rs, first, x, n, i);
    vstd::arithmetic::div_mod::lemma_small_mod(i as nat, weight(n) as nat);
}

proof fn lemma_weight_split(p: int, q: int)
    requires
        0 <= p < q <= 7,
    ensures
        weight(q) == weight(p) * (2 * weight(q - p - 1)),
        weight(p) > 0,
{
    assert(p == 0 || p == 1 || p == 2 || p == 3 || p == 4 || p == 5 || p == 6);
    assert(q - p == 1 || q - p == 2 || q - p == 3 || q - p == 4 || q - p == 5 || q - p == 6 || q
        - p == 7);
}

proof fn lemma_index_bit(rs: Seq<Seq<u8>>, first: int, x: int, n: int, p: int)
    requires
        0 <= p < n <= 8,
    ensures
        (index_at(rs, first, x, n) / weight(p) % 2 == 1) == row_bit(rs[first + p], x),
    decreases n,
{
    let q = n - 1;
    let low = index_at(rs, first, x, q);
    let set = row_bit(rs[first + q], x);
    lemma_index_bound(rs, first, x, q);
    assert(rs[first + n - 1] == rs[first + q]);
    let w = weight(p);
    assert(index_at(rs, first, x, n) == low + if set {
        weight(q)
    } else {
        0
    });
    if p < q {
        lemma_index_bit(rs, first, x, q, p);
        lemma_weight_split(p, q);
        let m = weight(q - p - 1);
        vstd::arithmetic::div_mod::lemma_hoist_over_denominator(low, 2 * m, w as nat);
        assert(w * (2 * m) == 2 * m * w) by (nonlinear_arith);
        assert((low + weight(q)) / w == low / w + 2 * m);
        assert((low / w + 2 * m) % 2 == low / w % 2);
    } else {
        vstd::arithmetic::div_mod::lemma_basic_div(low, w);
        assert((low + w) / w == 1) by {
            vstd::arithmetic::div_mod::lemma_fundamental_div_mod_converse(low + w, w, 1, low);
        }
    }
}

/// The planes of a bitmap spell exactly one index at every pixel.
pub proof fn law_one_index(rs: Seq<Seq<u8>>, b: Bmhd, y: int, x: int)
    requires
        shaped(rs, b),
        0 <= y < b.height,
        0 <= x < b.width,
        b.n_planes <= 8,
    ensures
        exists|i: u8| spells(rs, b, y, x, i),
        forall|i: u8, j: u8|
            #[trigger] spells(rs, b, y, x, i) && #[trigger] spells(rs, b, y, x, j) ==> i == j,
{
    let n = b.n_planes as int;
    let first = row_index(b, y, 0);
    lemma_weight(n);
    lemma_index_bound(rs, first, x, n);
    let i = index_at(rs, first, x, n) as u8;
    assert forall|p: int| 0 <= p < n implies #[trigger] plane_bit(rs, b, y, x, p) == (i as int / (
    pow2(p as nat) as int) % 2 == 1) by {
        lemma_weight(p);
        lemma_plane_bit(rs, b, y, x, p);
        lemma_index_bit(rs, first, x, n, p);
    }
    assert(spells(rs, b, y, x, i));
    assert forall|i: u8, j: u8|
        #[trigger] spells(rs, b, y, x, i) && #[trigger] spells(rs, b, y, x, j) implies i == j by {
        lemma_spelled(rs, b, y, x, i);
        lemma_spelled(rs, b, y, x, j);
    }
}

/// The colour of a pixel of a picture.
pub open spec fn colour_at(pic: Picture, y: int, x: int) -> [u8; 3] {
    let k = 4 * (y * pic.width + x);
    [pic.rgba[k], pic.rgba[k + 1], pic.rgba[k + 2]]
}

/// The opacity of a pixel of a picture.
pub open spec fn opacity_at(pic: Picture, y: int, x: int) -> u8 {
    pic.rgba[4 * (y * pic.width + x) + 3]
}

proof fn lemma_colour_at(
    rs: Seq<Seq<u8>>,
    b: Bmhd,
    pal: Seq<[u8; 3]>,
    camg: Camg,
    keyed: bool,
    y: int,
    x: int,
)
    requires
        0 <= y < b.height,
        0 <= x < b.width,
    ensures
        shown(rs, b, pal, camg, keyed) matches Ok(pic) ==> colour_at(pic, y, x) == shown_colour(
            rs,
            b,
            pal,
            camg,
            y,
            x,
        ),
{
    lemma_pixel_bounds(b, y, x);
    let k = pixel_at(b, y, x);
    assert(k / 4 == y * b.width + x && (k + 1) / 4 == y * b.width + x && (k + 2) / 4 == y * b.width
        + x);
    assert(k % 4 == 0 && (k + 1) % 4 == 1 && (k + 2) % 4 == 2);
    if let Ok(pic) = shown(rs, b, pal, camg, keyed) {
        assert(colour_at(pic, y, x) =~= shown_colour(rs, b, pal, camg, y, x));
    }
}

/// Outside the special modes a pixel has the colour of the palette that its planes spell, or
/// black where the palette is too short.
pub proof fn law_plain_pixel(
    rs: Seq<Seq<u8>>,
    b: Bmhd,
    pal: Seq<[u8; 3]>,
    camg: Camg,
    keyed: bool,
    y: int,
    x: int,
    i: u8,
)
    requires
        shaped(rs, b),
        0 <= y < b.height,
        0 <= x < b.width,
        b.n_planes <= 8,
        camg.mode / 0x80 % 2 == 0,
        camg.mode / 0x800 % 2 == 0,
        spells(rs, b, y, x, i),
    ensures
        shown(rs, b, pal, camg, keyed) matches Ok(pic) && {
            &&& pic.width == b.width
            &&& pic.height == b.height
            &&& pic.rgba.len() == 4 * (b.width * b.height)
            &&& i < pal.len() ==> colour_at(pic, y, x) == pal[i as int]
            &&& i >= pal.len() ==> colour_at(pic, y, x) == [0u8, 0u8, 0u8]
        },
{
    lemma_spelled(rs, b, y, x, i);
    lemma_colour_at(rs, b, pal, camg, keyed, y, x);
    assert(b.height * b.width == b.width * b.height) by (nonlinear_arith);
}

/// With extra half-brite and up to 32 colours, the indices below 32 stand for the colours, and
/// those above for the same colours at half the brightness.
pub proof fn law_half_brite_pixel(
    rs: Seq<Seq<u8>>,
    b: Bmhd,
    pal: Seq<[u8; 3]>,
    camg: Camg,
    keyed: bool,
    y: int,
    x: int,
    i: u8,
)
    requires
        shaped(rs, b),
        0 <= y < b.height,
        0 <= x < b.width,
        b.n_planes <= 8,
        pal.len() <= 32,
        camg.mode / 0x80 % 2 == 1,
        camg.mode / 0x800 % 2 == 0,
        spells(rs, b, y, x, i),
    ensures
        shown(rs, b, pal, camg, keyed) matches Ok(pic) && {
            let c = colour_at(pic, y, x);
            &&& i < pal.len() ==> c == pal[i as int]
            &&& 32 <= i < 32 + pal.len() ==> forall|q: int|
                0 <= q < 3 ==> #[trigger] c[q] == pal[i - 32][q] / 2
            &&& pal.len() <= i < 32 || 32 + pal.len() <= i ==> c == [0u8, 0u8, 0u8]
        },
{
    lemma_spelled(rs, b, y, x, i);
    lemma_colour_at(rs, b, pal, camg, keyed, y, x);
    if let Ok(pic) = shown(rs, b, pal, camg, keyed) {
        let c = colour_at(pic, y, x);
        if 32 + pal.len() <= i {
            assert(c =~= [0u8, 0u8, 0u8]);
        }
    }
}

/// In a hold-and-modify bitmap the two top bits of an index tell what becomes of the colour to
/// its left, which for the first pixel is the first palette entry. Zero takes a palette entry;
/// one, two and three replace blue, red and green by the other bits, four of them where there
/// are six planes and six where there are eight, stretched to a byte.
pub proof fn law_hold_and_modify_pixel(
    rs: Seq<Seq<u8>>,
    b: Bmhd,
    pal: Seq<[u8; 3]>,
    camg: Camg,
    keyed: bool,
    y: int,
    x: int,
    i: u8,
)
    requires
        shaped(rs, b),
        0 <= y < b.height,
        0 <= x < b.width,
        b.n_planes == 6 || b.n_planes == 8,
        pal.len() > 0,
        camg.mode / 0x800 % 2 == 1,
        camg.mode / 0x80 % 2 == 0 || pal.len() > 32,
        spells(rs, b, y, x, i),
    ensures
        shown(rs, b, pal, camg, keyed) matches Ok(pic) && {
            let c = colour_at(pic, y, x);
            let left = if x == 0 {
                pal[0]
            } else {
                colour_at(pic, y, x - 1)
            };
            &&& b.n_planes == 6 ==> {
                let v = i as int % 16;
                &&& i < 16 && i < pal.len() ==> c == pal[i as int]
                &&& i < 16 && i >= pal.len() ==> c == [0u8, 0u8, 0u8]
                &&& i as int / 16 == 1 ==> c[0] == left[0] && c[1] == left[1] && c[2] == 17 * v
                &&& i as int / 16 == 2 ==> c[0] == 17 * v && c[1] == left[1] && c[2] == left[2]
                &&& i as int / 16 == 3 ==> c[0] == left[0] && c[1] == 17 * v && c[2] == left[2]
            }
            &&& b.n_planes == 8 ==> {
                let v = 4 * (i as int % 64) + (i as int % 64) / 16;
                &&& i < 64 && i < pal.len() ==> c == pal[i as int]
                &&& i < 64 && i >= pal.len() ==> c == [0u8, 0u8, 0u8]
                &&& i as int / 64 == 1 ==> c[0] == left[0] && c[1] == left[1] && c[2] == v
                &&& i as int / 64 == 2 ==> c[0] == v && c[1] == left[1] && c[2] == left[2]
                &&& i as int / 64 == 3 ==> c[0] == left[0] && c[1] == v && c[2] == left[2]
            }
        },
{
    lemma_spelled(rs, b, y, x, i);
    lemma_weight(6);
    lemma_colour_at(rs, b, pal, camg, keyed, y, x);
    if x > 0 {
        lemma_colour_at(rs, b, pal, camg, keyed, y, x - 1);
    }
    let idx = line_indices(rs, row_index(b, y, 0), b.n_planes as int, b.width as int);
    assert(idx[x] == i);
    let bits: int = if b.n_planes == 6 {
        4
    } else {
        6
    };
    let before = if x == 0 {
        entry(pal, 0)
    } else {
        ham_colour(idx, pal, bits, x - 1)
    };
    assert(colours(pal, camg) == pal);
    assert(shown_colour(rs, b, pal, camg, y, x) == ham_colour(idx, pal, bits, x));
}

/// Where there is a mask, a pixel is opaque where the row behind those of the colour planes has
/// its bit, and clear elsewhere. Without one, a pixel of the transparent register is clear
/// where that is asked for, and every other pixel is opaque.
pub proof fn law_pixel_opacity(
    rs: Seq<Seq<u8>>,
    b: Bmhd,
    pal: Seq<[u8; 3]>,
    camg: Camg,
    keyed: bool,
    y: int,
    x: int,
    i: u8,
)
    requires
        shaped(rs, b),
        0 <= y < b.height,
        0 <= x < b.width,
        b.n_planes <= 8,
        spells(rs, b, y, x, i),
    ensures
        shown(rs, b, pal, camg, keyed) matches Ok(pic) ==> {
            let a = opacity_at(pic, y, x);
            &&& b.masking == Masking::HasMask && plane_bit(rs, b, y, x, b.n_planes as int) ==> a
                == 255
            &&& b.masking == Masking::HasMask && !plane_bit(rs, b, y, x, b.n_planes as int) ==> a
                == 0
            &&& b.masking == Masking::HasTransparentColor && keyed && i == b.transparent_color
                ==> a == 0
            &&& b.masking == Masking::HasTransparentColor && !(keyed && i == b.transparent_color)
                ==> a == 255
            &&& b.masking != Masking::HasMask && b.masking != Masking::HasTransparentColor ==> a
                == 255
        },
{
    lemma_spelled(rs, b, y, x, i);
    lemma_pixel_bounds(b, y, x);
    if b.masking == Masking::HasMask {
        lemma_plane_bit(rs, b, y, x, b.n_planes as int);
    }
    let k = pixel_at(b, y, x) + 3;
    assert(k / 4 == y * b.width + x && k % 4 == 3);
}

/// Hold and modify is refused for any other number of planes, where there is a line to show.
pub proof fn law_hold_and_modify_planes(
    rs: Seq<Seq<u8>>,
    b: Bmhd,
    pal: Seq<[u8; 3]>,
    camg: Camg,
    keyed: bool,
)
    ensures
        shown(rs, b, pal, camg, keyed) is Err <==> b.height > 0 && camg.mode / 0x800 % 2 == 1
            && b.n_planes != 6 && b.n_planes != 8,
{
}

/// The squared distance of two colours.
pub open spec fn squares(c: [u8; 3], d: [u8; 3]) -> int {
    (c[0] - d[0]) * (c[0] - d[0]) + (c[1] - d[1]) * (c[1] - d[1]) + (c[2] - d[2]) * (c[2] - d[2])
}

/// Whether `i` is the first of the `n` colours at the least squared distance to `c`.
pub open spec fn first_nearest(pal: spec_fn(int) -> [u8; 3], n: int, c: [u8; 3], i: int) -> bool {
    &&& 0 <= i < n
    &&& forall|j: int| 0 <= j < n ==> squares(c, pal(i)) <= #[trigger] squares(c, pal(j))
    &&& forall|j: int| 0 <= j < i ==> squares(c, pal(i)) < #[trigger] squares(c, pal(j))
}

proof fn lemma_packed_pixel(pic: Picture, y: int, x: int, i: u8, pal: Seq<[u8; 3]>)
    requires
        0 <= y < pic.bmhd.height,
        0 <= x < pic.bmhd.width,
        pic.width == pic.bmhd.width,
        pic.bmhd.n_planes <= 8,
        pal == colours(pic.palette, pic.camg),
        pal.len() <= pow2(pic.bmhd.n_planes as nat),
        spells(pic.planar(), pic.bmhd, y, x, i),
    ensures
        pal.len() == 0 ==> i == 0,
        pal.len() > 0 ==> first_nearest(
            |j: int| pal[j],
            pal.len() as int,
            colour_at(pic, y, x),
            i as int,
        ),
{
    let b = pic.bmhd;
    let rs = pic.planar();
    let c = colour_at(pic, y, x);
    let n = b.n_planes as int;
    let first = row_index(b, y, 0);
    assert(c == pic.colour(y, x));
    lemma_weight(n);
    let k = nearest(pal, c, pal.len() as int);
    if pal.len() > 0 {
        law_nearest(pal, c, pal.len() as int);
    }
    assert(0 <= k < 256 && k < weight(n));
    let v = k as u8;
    assert(pic.index(y, x) == v);
    assert forall|p: int| 0 <= p < n && p < 8 implies row_bit(#[trigger] rs[first + p], x)
        == has_bit(v, p) by {
        lemma_row_bounds(b, y, p);
        lemma_row_index(b, row_index(b, y, p), y, p);
        lemma_plane_row(pic.indices(y), p, b.row_len(), x);
        assert(pic.indices(y)[x] == v);
    }
    lemma_index_back(rs, first, x, n, v);
    vstd::arithmetic::div_mod::lemma_small_mod(v as nat, weight(n) as nat);
    lemma_spelled(rs, b, y, x, i);
    assert(i == k);
    let f = |j: int| pal[j];
    if pal.len() > 0 {
        assert forall|j: int| 0 <= j < pal.len() implies squares(c, f(k)) <= #[trigger] squares(
            c,
            f(j),
        ) by {
            assert(distance(c, pal[k]) <= distance(c, pal[j]));
        }
        assert forall|j: int| 0 <= j < k implies squares(c, f(k)) < #[trigger] squares(c, f(j)) by {
            assert(distance(c, pal[k]) < distance(c, pal[j]));
        }
    }
}

/// Packing a picture outside extra half-brite gives every pixel the first of the palette
/// entries whose squared distance to its colour is least, or zero where there is no palette.
pub proof fn law_packed_pixel(pic: Picture, y: int, x: int, i: u8)
    requires
        0 <= y < pic.bmhd.height,
        0 <= x < pic.bmhd.width,
        pic.width == pic.bmhd.width,
        pic.bmhd.n_planes <= 8,
        pic.camg.mode / 0x80 % 2 == 0,
        pic.palette.len() <= pow2(pic.bmhd.n_planes as nat),
        spells(pic.planar(), pic.bmhd, y, x, i),
    ensures
        pic.palette.len() == 0 ==> i == 0,
        pic.palette.len() > 0 ==> first_nearest(
            |j: int| pic.palette[j],
            pic.palette.len() as int,
            colour_at(pic, y, x),
            i as int,
        ),
{
    lemma_packed_pixel(pic, y, x, i, pic.palette);
    if pic.palette.len() > 0 {
        let f = |j: int| pic.palette[j];
        let c = colour_at(pic, y, x);
        assert(forall|j: int| #[trigger] f(j) == pic.palette[j]);
    }
}

/// With extra half-brite and up to 32 colours there are 64 to choose from: those of the palette,
/// filled up with black, and the same at half the brightness.
pub proof fn law_packed_half_brite(pic: Picture, y: int, x: int, i: u8)
    requires
        0 <= y < pic.bmhd.height,
        0 <= x < pic.bmhd.width,
        pic.width == pic.bmhd.width,
        6 <= pic.bmhd.n_planes <= 8,
        pic.camg.mode / 0x80 % 2 == 1,
        pic.palette.len() <= 32,
        spells(pic.planar(), pic.bmhd, y, x, i),
    ensures
        first_nearest(
            |j: int|
                if j < pic.palette.len() {
                    pic.palette[j]
                } else if 32 <= j < 32 + pic.palette.len() {
                    [
                        pic.palette[j - 32][0] / 2,
                        pic.palette[j - 32][1] / 2,
                        pic.palette[j - 32][2] / 2,
                    ]
                } else {
                    [0u8, 0u8, 0u8]
                },
            64,
            colour_at(pic, y, x),
            i as int,
        ),
{
    lemma2_to64();
    let all = colours(pic.palette, pic.camg);
    lemma_packed_pixel(pic, y, x, i, all);
    let c = colour_at(pic, y, x);
    let f = |j: int|
        if j < pic.palette.len() {
            pic.palette[j]
        } else if 32 <= j < 32 + pic.palette.len() {
            [
                pic.palette[j - 32][0] / 2,
                pic.palette[j - 32][1] / 2,
                pic.palette[j - 32][2] / 2,
            ]
        } else {
            [0u8, 0u8, 0u8]
        };
    let g = |j: int| all[j];
    assert forall|j: int| 0 <= j < 64 implies #[trigger] f(j) == g(j) by {
        assert(f(j) =~= all[j]);
    }
    assert(first_nearest(g, 64, c, i as int));
    assert forall|j: int| 0 <= j < 64 implies squares(c, f(i as int)) <= #[trigger] squares(
        c,
        f(j),
    ) by {
        assert(squares(c, g(i as int)) <= squares(c, g(j)));
    }
    assert forall|j: int| 0 <= j < i implies squares(c, f(i as int)) < #[trigger] squares(
        c,
        f(j),
    ) by {
        assert(squares(c, g(i as int)) < squares(c, g(j)));
    }
}

/// Packing a picture with a mask sets the mask bit of every pixel that is at least half opaque.
pub proof fn law_packed_mask(pic: Picture, y: int, x: int)
    requires
        0 <= y < pic.bmhd.height,
        0 <= x < pic.bmhd.width,
        pic.width == pic.bmhd.width,
        pic.bmhd.masking == Masking::HasMask,
    ensures
        plane_bit(pic.planar(), pic.bmhd, y, x, pic.bmhd.n_planes as int) == (opacity_at(pic, y, x)
            >= 128),
{
    let b = pic.bmhd;
    let rs = pic.planar();
    let n = b.n_planes as int;
    lemma_row_bounds(b, y, n);
    lemma_row_index(b, row_index(b, y, n), y, n);
    lemma_plane_row(pic.alphas(y), 7, b.row_len(), x);
    lemma_plane_bit(rs, b, y, x, n);
    assert(pic.alphas(y)[x] == pic.alpha(y, x));
    assert(rs[row_index(b, y, n)] == pic.plane_row(y, n));
}

} // verus!
