//! Pictures as pixels, and their planar form.

use vstd::prelude::*;
use crate::bitmap::{lemma_row_bounds, lemma_row_index, line_of, plane_of, row_index, rows};
use crate::error::{IffError, Reason};
use crate::ilbm::{Bmhd, Compression, Masking};
use crate::ilbm::colour::{
    colours, entry, expand_ham_row, expand_palette, find_nearest, ham_colour, ham_row,
    lemma_nearest_exact, nearest, read_entry, Camg,
};
use crate::ilbm::planar::{
    has_bit, index_at, indices_to_planar_row, lemma_index_back, lemma_index_bound, lemma_plane_row,
    line_indices, planar_row_to_indices, plane_row, row_bit, test_row_bit, weight,
};

verus! {

/// A decoded picture.
#[derive(Clone, Debug)]
pub struct IlbmImage {
    /// Width in pixels.
    pub width: u32,
    /// Height in scanlines.
    pub height: u32,
    /// The bitmap header.
    pub bmhd: Bmhd,
    /// The colour registers, as stored.
    pub palette: Vec<[u8; 3]>,
    /// The viewport mode.
    pub camg: Camg,
    /// Red, green, blue and alpha of every pixel, line by line.
    pub rgba: Vec<u8>,
}

/// What a picture shows.
#[verifier::ext_equal]
pub struct Picture {
    /// Width in pixels.
    pub width: u32,
    /// Height in scanlines.
    pub height: u32,
    /// The bitmap header.
    pub bmhd: Bmhd,
    /// The colour registers, as stored.
    pub palette: Seq<[u8; 3]>,
    /// The viewport mode.
    pub camg: Camg,
    /// Red, green, blue and alpha of every pixel, line by line.
    pub rgba: Seq<u8>,
}

impl View for IlbmImage {
    type V = Picture;

    open spec fn view(&self) -> Picture {
        Picture {
            width: self.width,
            height: self.height,
            bmhd: self.bmhd,
            palette: self.palette@,
            camg: self.camg,
            rgba: self.rgba@,
        }
    }
}

impl Default for IlbmImage {
    fn default() -> (r: Self)
        ensures
            r.width == 0 && r.height == 0 && r.bmhd == empty_bmhd() && r.palette@.len() == 0
                && r.camg.mode == 0 && r.rgba@.len() == 0,
    {
        IlbmImage {
            width: 0,
            height: 0,
            bmhd: empty_bmhd(),
            palette: Vec::new(),
            camg: Camg { mode: 0 },
            rgba: Vec::new(),
        }
    }
}

/// The header of a picture without pixels.
#[verifier::allow_in_spec]
pub fn empty_bmhd() -> Bmhd
    returns
        (Bmhd {
            width: 0,
            height: 0,
            x_origin: 0,
            y_origin: 0,
            n_planes: 0,
            masking: Masking::NoMask,
            compression: Compression::Uncompressed,
            pad: 0,
            transparent_color: 0,
            x_aspect: 0,
            y_aspect: 0,
            page_width: 0,
            page_height: 0,
        }),
{
    Bmhd {
        width: 0,
        height: 0,
        x_origin: 0,
        y_origin: 0,
        n_planes: 0,
        masking: Masking::NoMask,
        compression: Compression::Uncompressed,
        pad: 0,
        transparent_color: 0,
        x_aspect: 0,
        y_aspect: 0,
        page_width: 0,
        page_height: 0,
    }
}

/// Where the bytes of a pixel start.
pub open spec fn pixel_at(b: Bmhd, y: int, x: int) -> int {
    4 * (y * b.width + x)
}

impl Picture {
    /// There is a pixel for every place of the bitmap.
    pub open spec fn has_pixels(self) -> bool {
        4 * (self.bmhd.height * self.bmhd.width) <= self.rgba.len()
    }

    /// The colour of a pixel.
    pub open spec fn colour(self, y: int, x: int) -> [u8; 3] {
        let k = pixel_at(self.bmhd, y, x);
        [self.rgba[k], self.rgba[k + 1], self.rgba[k + 2]]
    }

    /// The alpha value of a pixel.
    pub open spec fn alpha(self, y: int, x: int) -> u8 {
        self.rgba[pixel_at(self.bmhd, y, x) + 3]
    }

    /// The colour index of a pixel: that of the nearest colour.
    pub open spec fn index(self, y: int, x: int) -> u8 {
        let pal = colours(self.palette, self.camg);
        (nearest(pal, self.colour(y, x), pal.len() as int) % 256) as u8
    }

    /// The colour indices of a scanline.
    pub open spec fn indices(self, y: int) -> Seq<u8> {
        Seq::new(self.bmhd.width as nat, |x: int| self.index(y, x))
    }

    /// The alpha values of a scanline.
    pub open spec fn alphas(self, y: int) -> Seq<u8> {
        Seq::new(self.bmhd.width as nat, |x: int| self.alpha(y, x))
    }

    /// Row `p` of a scanline: a bit of every colour index or, behind the colour planes,
    /// whether every pixel is at least half opaque.
    pub open spec fn plane_row(self, y: int, p: int) -> Seq<u8> {
        if p < self.bmhd.n_planes {
            plane_row(self.indices(y), p, self.bmhd.row_len())
        } else {
            plane_row(self.alphas(y), 7, self.bmhd.row_len())
        }
    }

    /// The planar form.
    pub open spec fn planar(self) -> Seq<Seq<u8>> {
        Seq::new(
            (self.bmhd.height * self.bmhd.rows_per_line()) as nat,
            |i: int| self.plane_row(line_of(self.bmhd, i), plane_of(self.bmhd, i)),
        )
    }
}

/// The bytes of a pixel lie within those of all pixels.
pub proof fn lemma_pixel_bounds(b: Bmhd, y: int, x: int)
    requires
        0 <= y < b.height,
        0 <= x < b.width,
    ensures
        0 <= pixel_at(b, y, x),
        pixel_at(b, y, x) + 4 <= 4 * (b.height * b.width),
        b.height * b.width <= 0xFFFE_0001,
        y * b.width + x < b.height * b.width,
        (y * b.width + x) / b.width as int == y,
        (y * b.width + x) % b.width as int == x,
{
    let h = b.height as int;
    let w = b.width as int;
    assert(0 <= y * w && y * w + x < h * w && h * w <= 0xFFFE_0001) by (nonlinear_arith)
        requires
            0 <= y < h <= 0xFFFF,
            0 <= x < w <= 0xFFFF,
    ;
    vstd::arithmetic::div_mod::lemma_fundamental_div_mod_converse(y * w + x, w, y, x);
}

/// Which pixel a byte belongs to.
pub proof fn lemma_pixel_of(b: Bmhd, k: int)
    requires
        0 <= k < 4 * (b.height * b.width),
    ensures
        0 < b.width,
        0 <= k / 4 / b.width as int,
        k / 4 / (b.width as int) < b.height,
        0 <= k / 4 % (b.width as int) < b.width,
        k == pixel_at(b, k / 4 / b.width as int, k / 4 % b.width as int) + k % 4,
{
    let h = b.height as int;
    let w = b.width as int;
    assert(w > 0) by (nonlinear_arith)
        requires
            0 < h * w,
            0 <= w,
    ;
    let n = k / 4;
    vstd::arithmetic::div_mod::lemma_fundamental_div_mod(n, w);
    let y = n / w;
    let x = n % w;
    assert(0 <= y < h && w * y == y * w) by (nonlinear_arith)
        requires
            n == w * y + x,
            0 <= n < h * w,
            0 <= x < w,
    ;
}

/// Packs a picture into bitplanes; a pixel gets the index of the palette entry nearest
/// to its colour.
pub fn rgba_to_planar(image: &IlbmImage) -> (out: Vec<Vec<u8>>)
    requires
        image@.has_pixels(),
    ensures
        rows(out@) == image@.planar(),
{
    let bmhd: Bmhd = image.bmhd;
    let w: usize = bmhd.width as usize;
    let h: usize = bmhd.height as usize;
    let n_planes: usize = bmhd.n_planes as usize;
    let row_bytes: usize = bmhd.row_bytes();
    let per_line: usize = bmhd.planes_per_row();
    let pal: Vec<[u8; 3]> = expand_palette(image.palette.as_slice(), image.camg);
    let total: usize = image.rgba.len();
    let ghost pic = image@;
    let mut out: Vec<Vec<u8>> = Vec::new();
    let mut y: usize = 0;
    while y < h
        invariant
            pic == image@,
            pic.has_pixels(),
            total == pic.rgba.len(),
            bmhd == pic.bmhd,
            w == bmhd.width,
            h == bmhd.height,
            n_planes == bmhd.n_planes,
            row_bytes == bmhd.row_len(),
            row_bytes <= 0x2000,
            per_line == bmhd.rows_per_line(),
            pal@ == colours(pic.palette, pic.camg),
            y <= h,
            out@.len() == y * per_line,
            forall|i: int|
                0 <= i < out@.len() ==> (#[trigger] out@[i])@ == pic.plane_row(
                    line_of(bmhd, i),
                    plane_of(bmhd, i),
                ),
        decreases h - y,
    {
        let mut indices: Vec<u8> = Vec::new();
        let mut alphas: Vec<u8> = Vec::new();
        let mut x: usize = 0;
        while x < w
            invariant
                pic == image@,
                pic.has_pixels(),
                total == pic.rgba.len(),
                bmhd == pic.bmhd,
                w == bmhd.width,
                h == bmhd.height,
                y < h,
                pal@ == colours(pic.palette, pic.camg),
                x <= w,
                indices@ == pic.indices(y as int).take(x as int),
                alphas@ == pic.alphas(y as int).take(x as int),
            decreases w - x,
        {
            proof {
                lemma_pixel_bounds(bmhd, y as int, x as int);
            }
            let k: usize = 4 * (y * w + x);
            let c: [u8; 3] = [image.rgba[k], image.rgba[k + 1], image.rgba[k + 2]];
            let best: usize = find_nearest(pal.as_slice(), c);
            indices.push((best % 256) as u8);
            alphas.push(image.rgba[k + 3]);
            x += 1;
            assert(indices@ =~= pic.indices(y as int).take(x as int));
            assert(alphas@ =~= pic.alphas(y as int).take(x as int));
        }
        assert(indices@ =~= pic.indices(y as int));
        assert(alphas@ =~= pic.alphas(y as int));
        let mut p: usize = 0;
        while p < per_line
            invariant
                pic.bmhd == bmhd,
                n_planes == bmhd.n_planes,
                row_bytes == bmhd.row_len(),
                row_bytes <= 0x2000,
                per_line == bmhd.rows_per_line(),
                y < bmhd.height,
                p <= per_line,
                indices@ == pic.indices(y as int),
                alphas@ == pic.alphas(y as int),
                out@.len() == y * per_line + p,
                forall|i: int|
                    0 <= i < out@.len() ==> (#[trigger] out@[i])@ == pic.plane_row(
                        line_of(bmhd, i),
                        plane_of(bmhd, i),
                    ),
            decreases per_line - p,
        {
            let row: Vec<u8> = if p < n_planes {
                indices_to_planar_row(indices.as_slice(), p, row_bytes)
            } else {
                indices_to_planar_row(alphas.as_slice(), 7, row_bytes)
            };
            proof {
                lemma_row_index(bmhd, row_index(bmhd, y as int, p as int), y as int, p as int);
            }
            out.push(row);
            p += 1;
        }
        y += 1;
        assert(y * per_line == (y - 1) * per_line + per_line) by (nonlinear_arith)
            requires
                y >= 1,
        ;
    }
    assert(rows(out@) =~= pic.planar());
    out
}

/// The colour of a pixel of a bitmap.
pub open spec fn shown_colour(
    rs: Seq<Seq<u8>>,
    b: Bmhd,
    pal: Seq<[u8; 3]>,
    camg: Camg,
    y: int,
    x: int,
) -> [u8; 3] {
    let idx = line_indices(rs, row_index(b, y, 0), b.n_planes as int, b.width as int);
    if camg.is_ham() {
        ham_colour(
            idx,
            colours(pal, camg),
            if b.n_planes == 6 {
                4
            } else {
                6
            },
            x,
        )
    } else {
        entry(colours(pal, camg), idx[x] as int)
    }
}

/// The alpha value of a pixel of a bitmap: from the mask row where there is one; with
/// `keyed`, zero for the transparent colour register.
pub open spec fn shown_alpha(rs: Seq<Seq<u8>>, b: Bmhd, keyed: bool, y: int, x: int) -> u8 {
    if b.masking == Masking::HasMask {
        if row_bit(rs[row_index(b, y, b.n_planes as int)], x) {
            0xFF
        } else {
            0
        }
    } else if keyed && b.masking == Masking::HasTransparentColor && index_at(
        rs,
        row_index(b, y, 0),
        x,
        b.n_planes as int,
    ) == b.transparent_color {
        0
    } else {
        0xFF
    }
}

/// Byte `k` of the pixels of a bitmap.
pub open spec fn shown_byte(
    rs: Seq<Seq<u8>>,
    b: Bmhd,
    pal: Seq<[u8; 3]>,
    camg: Camg,
    keyed: bool,
    k: int,
) -> u8 {
    let y = k / 4 / b.width as int;
    let x = k / 4 % b.width as int;
    if k % 4 == 3 {
        shown_alpha(rs, b, keyed, y, x)
    } else {
        shown_colour(rs, b, pal, camg, y, x)[k % 4]
    }
}

/// The pixels of a bitmap.
pub open spec fn shown_rgba(
    rs: Seq<Seq<u8>>,
    b: Bmhd,
    pal: Seq<[u8; 3]>,
    camg: Camg,
    keyed: bool,
) -> Seq<u8> {
    Seq::new(
        (4 * (b.height * b.width)) as nat,
        |k: int| shown_byte(rs, b, pal, camg, keyed, k),
    )
}

/// The picture that a bitmap shows. Hold and modify needs six or eight planes.
pub open spec fn shown(
    rs: Seq<Seq<u8>>,
    b: Bmhd,
    pal: Seq<[u8; 3]>,
    camg: Camg,
    keyed: bool,
) -> Result<Picture, IffError> {
    if b.height > 0 && camg.is_ham() && b.n_planes != 6 && b.n_planes != 8 {
        Err(IffError::Unsupported(Reason::HamPlanes { planes: b.n_planes }))
    } else {
        Ok(
            Picture {
                width: b.width as u32,
                height: b.height as u32,
                bmhd: b,
                palette: pal,
                camg: camg,
                rgba: shown_rgba(rs, b, pal, camg, keyed),
            },
        )
    }
}

/// Renders one scanline and appends its pixels.
fn push_line(
    rgba: &mut Vec<u8>,
    planar: &[Vec<u8>],
    bmhd: &Bmhd,
    palette: &[[u8; 3]],
    full: &[[u8; 3]],
    camg: Camg,
    keyed: bool,
    y: usize,
)
    requires
        planar@.len() >= bmhd.height * bmhd.rows_per_line(),
        camg.is_ham() ==> bmhd.n_planes == 6 || bmhd.n_planes == 8,
        full@ == colours(palette@, camg),
        y < bmhd.height,
        old(rgba)@ == shown_rgba(rows(planar@), *bmhd, palette@, camg, keyed).take(
            pixel_at(*bmhd, y as int, 0),
        ),
    ensures
        final(rgba)@ == shown_rgba(rows(planar@), *bmhd, palette@, camg, keyed).take(
            pixel_at(*bmhd, y + 1, 0),
        ),
{
    let ghost rs = rows(planar@);
    let ghost b = *bmhd;
    let ghost all = shown_rgba(rs, b, palette@, camg, keyed);
    let total: usize = planar.len();
    let n: usize = bmhd.n_planes as usize;
    let w: usize = bmhd.width as usize;
    let per_line: usize = bmhd.planes_per_row();
    proof {
        let h = b.height as int;
        let q = per_line as int;
        assert(y * q + q <= h * q && h * q <= 0xFFFF * 256) by (nonlinear_arith)
            requires
                0 <= y < h <= 0xFFFF,
                0 <= q <= 256,
        ;
        assert(y * w <= h * w) by (nonlinear_arith)
            requires
                0 <= y < h,
                0 <= w,
        ;
    }
    let first: usize = y * per_line;
    let idx: Vec<u8> = planar_row_to_indices(planar, first, n, w);
    let ghost line = line_indices(rs, first as int, n as int, w as int);
    let bits: u8 = if n == 6 {
        4
    } else {
        6
    };
    let ham: bool = camg.is_ham();
    let held: Vec<[u8; 3]> = if ham {
        expand_ham_row(idx.as_slice(), full, bits)
    } else {
        Vec::new()
    };
    let masked: bool = bmhd.masking == Masking::HasMask;
    let key: bool = keyed && bmhd.masking == Masking::HasTransparentColor;
    let mut x: usize = 0;
    while x < w
        invariant
            rs == rows(planar@),
            b == *bmhd,
            all == shown_rgba(rs, b, palette@, camg, keyed),
            planar@.len() >= b.height * b.rows_per_line(),
            full@ == colours(palette@, camg),
            y < b.height,
            n == b.n_planes,
            w == b.width,
            per_line == b.rows_per_line(),
            first == y * per_line,
            first + per_line <= planar@.len() <= usize::MAX,
            idx@ == line,
            line == line_indices(rs, first as int, n as int, w as int),
            ham == camg.is_ham(),
            bits == if n == 6 {
                4int
            } else {
                6int
            },
            ham ==> held@ == ham_row(line, full@, bits as int),
            masked == (b.masking == Masking::HasMask),
            key == (keyed && b.masking == Masking::HasTransparentColor),
            x <= w,
            pixel_at(b, y as int, x as int) <= all.len(),
            rgba@ == all.take(pixel_at(b, y as int, x as int)),
        decreases w - x,
    {
        let ghost rgba0 = rgba@;
        proof {
            lemma_pixel_bounds(b, y as int, x as int);
            lemma_index_bound(rs, first as int, x as int, n as int);
        }
        let v: u8 = idx[x];
        let c: [u8; 3] = if ham {
            held[x]
        } else {
            read_entry(full, v as usize)
        };
        let a: u8 = if masked {
            if test_row_bit(planar[first + n].as_slice(), x) {
                0xFF
            } else {
                0
            }
        } else if key && v as u16 == bmhd.transparent_color {
            0
        } else {
            0xFF
        };
        rgba.push(c[0]);
        rgba.push(c[1]);
        rgba.push(c[2]);
        rgba.push(a);
        proof {
            let k = pixel_at(b, y as int, x as int);
            assert(k / 4 == y * w + x && (k + 1) / 4 == y * w + x && (k + 2) / 4 == y * w + x && (k
                + 3) / 4 == y * w + x);
            assert(c == shown_colour(rs, b, palette@, camg, y as int, x as int));
            assert(a == shown_alpha(rs, b, keyed, y as int, x as int));
            assert(all[k] == c[0] && all[k + 1] == c[1] && all[k + 2] == c[2] && all[k + 3] == a);
            assert(rgba@ =~= all.take(k + 4));
            assert(pixel_at(b, y as int, x + 1) == k + 4);
        }
        x += 1;
    }
    assert(pixel_at(b, y as int, w as int) == pixel_at(b, y + 1, 0)) by (nonlinear_arith)
        requires
            pixel_at(b, y as int, w as int) == 4 * (y * w + w),
            pixel_at(b, y + 1, 0) == 4 * ((y + 1) * w),
    ;
}

/// Renders a bitmap. Indices past the palette show black.
pub fn planar_to_rgba(
    planar: &[Vec<u8>],
    bmhd: &Bmhd,
    palette: &[[u8; 3]],
    camg: Camg,
    keyed: bool,
) -> (r: Result<IlbmImage, IffError>)
    requires
        planar@.len() >= bmhd.height * bmhd.rows_per_line(),
    ensures
        match shown(rows(planar@), *bmhd, palette@, camg, keyed) {
            Ok(pic) => r matches Ok(img) && img@ == pic,
            Err(e) => r matches Err(f) && f == e,
        },
{
    let h: usize = bmhd.height as usize;
    if h > 0 && camg.is_ham() && bmhd.n_planes != 6 && bmhd.n_planes != 8 {
        return Err(IffError::Unsupported(Reason::HamPlanes { planes: bmhd.n_planes }));
    }
    let full: Vec<[u8; 3]> = expand_palette(palette, camg);
    let ghost rs = rows(planar@);
    let ghost b = *bmhd;
    let mut rgba: Vec<u8> = Vec::new();
    let mut y: usize = 0;
    assert(pixel_at(b, 0, 0) == 0);
    assert(rgba@ =~= shown_rgba(rs, b, palette@, camg, keyed).take(0));
    while y < h
        invariant
            rs == rows(planar@),
            b == *bmhd,
            planar@.len() >= b.height * b.rows_per_line(),
            h > 0 && camg.is_ham() ==> b.n_planes == 6 || b.n_planes == 8,
            full@ == colours(palette@, camg),
            h == b.height,
            y <= h,
            rgba@ == shown_rgba(rs, b, palette@, camg, keyed).take(pixel_at(b, y as int, 0)),
        decreases h - y,
    {
        push_line(
            &mut rgba,
            planar,
            bmhd,
            palette,
            full.as_slice(),
            camg,
            keyed,
            y,
        );
        y += 1;
    }
    let img = IlbmImage {
        width: bmhd.width as u32,
        height: bmhd.height as u32,
        bmhd: *bmhd,
        palette: vstd::slice::slice_to_vec(palette),
        camg: camg,
        rgba: rgba,
    };
    assert(pixel_at(b, h as int, 0) == 4 * (h * b.width));
    assert(img@.rgba =~= shown_rgba(rs, b, palette@, camg, keyed));
    Ok(img)
}

impl Picture {
    /// The colour of a pixel has an index that the planes can hold.
    pub open spec fn paletted(self, y: int, x: int) -> bool {
        let pal = colours(self.palette, self.camg);
        exists|j: int|
            0 <= j < pal.len() && j < weight(self.bmhd.n_planes as int) && #[trigger] pal[j]
                == self.colour(y, x)
    }

    /// The alpha value of a pixel is one that the planar form can say.
    pub open spec fn plain_alpha(self, keyed: bool, y: int, x: int) -> bool {
        if self.bmhd.masking == Masking::HasMask {
            self.alpha(y, x) == 0 || self.alpha(y, x) == 0xFF
        } else if keyed && self.bmhd.masking == Masking::HasTransparentColor && self.index(y, x)
            == self.bmhd.transparent_color {
            self.alpha(y, x) == 0
        } else {
            self.alpha(y, x) == 0xFF
        }
    }

    /// Nothing of the picture is lost in its planar form.
    pub open spec fn lossless(self, keyed: bool) -> bool {
        &&& self.width == self.bmhd.width
        &&& self.height == self.bmhd.height
        &&& self.rgba.len() == 4 * (self.bmhd.height * self.bmhd.width)
        &&& !self.camg.is_ham()
        &&& forall|y: int, x: int|
            0 <= y < self.bmhd.height && 0 <= x < self.bmhd.width ==> #[trigger] self.paletted(
                y,
                x,
            )
        &&& forall|y: int, x: int|
            0 <= y < self.bmhd.height && 0 <= x < self.bmhd.width
                ==> #[trigger] self.plain_alpha(keyed, y, x)
    }
}

/// The colour index of a pixel is read back from the planes.
proof fn lemma_index_shown(pic: Picture, y: int, x: int)
    requires
        0 <= y < pic.bmhd.height,
        0 <= x < pic.bmhd.width,
        pic.paletted(y, x),
    ensures
        ({
            let b = pic.bmhd;
            let pal = colours(pic.palette, pic.camg);
            let v = index_at(pic.planar(), row_index(b, y, 0), x, b.n_planes as int);
            &&& v == pic.index(y, x)
            &&& 0 <= v < pal.len()
            &&& v < 256
            &&& pal[v] == pic.colour(y, x)
        }),
{
    let b = pic.bmhd;
    let pal = colours(pic.palette, pic.camg);
    let c = pic.colour(y, x);
    let j = choose|j: int|
        0 <= j < pal.len() && j < weight(b.n_planes as int) && #[trigger] pal[j] == c;
    lemma_nearest_exact(pal, c, j);
    let v = pic.index(y, x);
    let rs = pic.planar();
    let first = row_index(b, y, 0);
    assert forall|p: int| 0 <= p < b.n_planes && p < 8 implies row_bit(
        #[trigger] rs[first + p],
        x,
    ) == has_bit(v, p) by {
        lemma_row_bounds(b, y, p);
        lemma_row_index(b, row_index(b, y, p), y, p);
        assert(row_index(b, y, p) == first + p);
        lemma_plane_row(pic.indices(y), p, b.row_len(), x);
        assert(pic.indices(y)[x] == v);
    }
    lemma_index_back(rs, first, x, b.n_planes as int, v);
    assert(v as int % weight(b.n_planes as int) == v) by {
        vstd::arithmetic::div_mod::lemma_small_mod(v as nat, weight(b.n_planes as int) as nat);
    }
}

/// Packing a picture and rendering its planes gives the picture.
pub proof fn law_planar_round_trip(pic: Picture, keyed: bool)
    requires
        pic.lossless(keyed),
    ensures
        shown(pic.planar(), pic.bmhd, pic.palette, pic.camg, keyed) == Ok::<Picture, IffError>(pic),
{
    let b = pic.bmhd;
    let rs = pic.planar();
    let out = shown_rgba(rs, b, pic.palette, pic.camg, keyed);
    assert forall|k: int| 0 <= k < out.len() implies out[k] == pic.rgba[k] by {
        lemma_pixel_of(b, k);
        let y = k / 4 / b.width as int;
        let x = k / 4 % b.width as int;
        assert(pic.paletted(y, x));
        assert(pic.plain_alpha(keyed, y, x));
        lemma_index_shown(pic, y, x);
        if k % 4 == 3 {
            if b.masking == Masking::HasMask {
                let p = b.n_planes as int;
                lemma_row_bounds(b, y, p);
                lemma_row_index(b, row_index(b, y, p), y, p);
                lemma_plane_row(pic.alphas(y), 7, b.row_len(), x);
                assert(pic.alphas(y)[x] == pic.alpha(y, x));
                assert(rs[row_index(b, y, p)] == pic.plane_row(y, p));
            }
        } else {
            let idx = line_indices(rs, row_index(b, y, 0), b.n_planes as int, b.width as int);
            assert(idx[x] == pic.index(y, x));
        }
    }
    assert(out =~= pic.rgba);
}

} // verus!
