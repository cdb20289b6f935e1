//! FORM ILBM pictures: bitmap header, palette, viewport mode and body.

use vstd::prelude::*;
use crate::bitmap::{rows, shaped};
use crate::bytes::{
    be16, be16_bytes, be32, be32_bytes, id_at, law_be16_round_trip, law_be32_round_trip,
    lemma_lies_split, lies_at, push_be16, push_be32, read_be16, read_be32, read_id, same_id,
    signed16, to_signed16, to_unsigned16, unsigned16,
};
use crate::chunk::{
    after_chunk, body_at, find_group_end, framed, group_bytes, group_end, lemma_framed, lemma_group,
    make_group, push_chunk, size_at, GROUP_FORM,
};
use crate::error::{IffError, Reason};
use crate::ilbm::{Bmhd, Compression, Masking};
use crate::ilbm::body::{body_read, decode_rows, encode_rows, law_body_round_trip, stored_rows};
use crate::ilbm::colour::Camg;
use crate::ilbm::image::{
    law_planar_round_trip, planar_to_rgba, rgba_to_planar, shown, IlbmImage, Picture,
};

verus! {

/// Type of a FORM that holds an interleaved bitmap.
pub const TYPE_ILBM: [u8; 4] = [0x49, 0x4C, 0x42, 0x4D];

/// Id of the bitmap header.
pub const ID_BMHD: [u8; 4] = [0x42, 0x4D, 0x48, 0x44];

/// Id of the palette.
pub const ID_CMAP: [u8; 4] = [0x43, 0x4D, 0x41, 0x50];

/// Id of the viewport mode.
pub const ID_CAMG: [u8; 4] = [0x43, 0x41, 0x4D, 0x47];

/// Id of the rows.
pub const ID_BODY: [u8; 4] = [0x42, 0x4F, 0x44, 0x59];

/// The number that stands for a transparency convention.
pub open spec fn masking_code(m: Masking) -> u8 {
    match m {
        Masking::NoMask => 0,
        Masking::HasMask => 1,
        Masking::HasTransparentColor => 2,
        Masking::Lasso => 3,
    }
}

/// The number that stands for a row storage.
pub open spec fn compression_code(c: Compression) -> u8 {
    match c {
        Compression::Uncompressed => 0,
        Compression::ByteRun1 => 1,
    }
}

/// The bitmap header that a chunk body holds.
pub open spec fn bmhd_read(d: Seq<u8>) -> Result<Bmhd, IffError> {
    if d.len() < 20 {
        Err(IffError::invalid("ILBM BMHD: need 20 bytes"))
    } else if d[9] > 3 {
        Err(IffError::invalid("ILBM BMHD: unknown masking"))
    } else if d[10] > 1 {
        Err(IffError::unsupported("ILBM BMHD: unknown compression"))
    } else {
        Ok(
            Bmhd {
                width: be16(d, 0),
                height: be16(d, 2),
                x_origin: signed16(be16(d, 4)),
                y_origin: signed16(be16(d, 6)),
                n_planes: d[8],
                masking: if d[9] == 0 {
                    Masking::NoMask
                } else if d[9] == 1 {
                    Masking::HasMask
                } else if d[9] == 2 {
                    Masking::HasTransparentColor
                } else {
                    Masking::Lasso
                },
                compression: if d[10] == 0 {
                    Compression::Uncompressed
                } else {
                    Compression::ByteRun1
                },
                pad: d[11],
                transparent_color: be16(d, 12),
                x_aspect: d[14],
                y_aspect: d[15],
                page_width: signed16(be16(d, 16)),
                page_height: signed16(be16(d, 18)),
            },
        )
    }
}

/// The chunk body of a bitmap header.
pub open spec fn bmhd_bytes(b: Bmhd) -> Seq<u8> {
    be16_bytes(b.width) + be16_bytes(b.height) + be16_bytes(unsigned16(b.x_origin)) + be16_bytes(
        unsigned16(b.y_origin),
    ) + seq![b.n_planes, masking_code(b.masking), compression_code(b.compression), b.pad]
        + be16_bytes(b.transparent_color) + seq![b.x_aspect, b.y_aspect] + be16_bytes(
        unsigned16(b.page_width),
    ) + be16_bytes(unsigned16(b.page_height))
}

/// The palette that a chunk body holds: three bytes per colour.
pub open spec fn cmap_read(d: Seq<u8>) -> Seq<[u8; 3]> {
    Seq::new(d.len() / 3, |i: int| [d[3 * i], d[3 * i + 1], d[3 * i + 2]])
}

/// The chunk body of a palette.
pub open spec fn cmap_bytes(pal: Seq<[u8; 3]>) -> Seq<u8> {
    Seq::new(3 * pal.len(), |i: int| pal[i / 3][i % 3])
}

/// What has been found of a picture.
pub struct Parts {
    /// The bitmap header.
    pub bmhd: Option<Bmhd>,
    /// The palette.
    pub palette: Seq<[u8; 3]>,
    /// The viewport mode.
    pub camg: Camg,
    /// The stored rows.
    pub body: Option<Seq<u8>>,
}

/// A chunk is taken in. Other chunks than those of a picture's four parts are passed over;
/// a later chunk takes the place of an earlier one.
pub open spec fn part_added(parts: Parts, id: [u8; 4], body: Seq<u8>) -> Result<Parts, IffError> {
    if id == ID_BMHD {
        match bmhd_read(body) {
            Ok(b) => Ok(Parts { bmhd: Some(b), ..parts }),
            Err(e) => Err(e),
        }
    } else if id == ID_CMAP {
        Ok(Parts { palette: cmap_read(body), ..parts })
    } else if id == ID_CAMG {
        if body.len() < 4 {
            Err(IffError::invalid("ILBM CAMG: need 4 bytes"))
        } else {
            Ok(Parts { camg: Camg { mode: be32(body, 0) }, ..parts })
        }
    } else if id == ID_BODY {
        Ok(Parts { body: Some(body), ..parts })
    } else {
        Ok(parts)
    }
}

/// The chunks from `at` on, up to `end`.
pub open spec fn parts_read(d: Seq<u8>, end: int, at: int, parts: Parts) -> Result<Parts, IffError>
    decreases end + 1 - at,
{
    if at + 8 > end {
        Ok(parts)
    } else if at + 8 + size_at(d, at) > end {
        Err(IffError::invalid("ILBM: chunk extends past FORM"))
    } else {
        match part_added(parts, id_at(d, at), body_at(d, at)) {
            Ok(next) => parts_read(d, end, after_chunk(d, at), next),
            Err(e) => Err(e),
        }
    }
}

/// A bitmap without contents.
pub open spec fn blank_rows(b: Bmhd) -> Seq<Seq<u8>> {
    Seq::new((b.height * b.rows_per_line()) as nat, |i: int| Seq::<u8>::empty())
}

/// The picture that its parts make.
pub open spec fn picture_made(parts: Parts) -> Result<Picture, IffError> {
    match parts.bmhd {
        None => Err(IffError::invalid("ILBM: missing BMHD chunk")),
        Some(b) => match parts.body {
            None => Err(IffError::invalid("ILBM: missing BODY chunk")),
            Some(body) => if b.n_planes == 0 || b.n_planes > 8 {
                Err(IffError::Unsupported(Reason::PlaneCount { planes: b.n_planes }))
            } else {
                match body_read(body, b, "ILBM: BODY too short", blank_rows(b)) {
                    (rs, Ok(())) => shown(rs, b, parts.palette, parts.camg, true),
                    (rs, Err(e)) => Err(e),
                }
            },
        },
    }
}

/// The picture that a FORM ILBM holds.
#[verifier::opaque]
pub open spec fn ilbm_read(d: Seq<u8>) -> Result<Picture, IffError> {
    if d.len() < 12 {
        Err(IffError::invalid("ILBM: file shorter than FORM header"))
    } else if id_at(d, 0) != GROUP_FORM {
        Err(IffError::invalid("ILBM: missing FORM signature"))
    } else if id_at(d, 8) != TYPE_ILBM {
        Err(IffError::invalid("ILBM: form type is not ILBM"))
    } else {
        match parts_read(d, group_end(d), 12, no_parts()) {
            Ok(parts) => picture_made(parts),
            Err(e) => Err(e),
        }
    }
}

/// Nothing found yet.
pub open spec fn no_parts() -> Parts {
    Parts { bmhd: None, palette: Seq::empty(), camg: Camg { mode: 0 }, body: None }
}

/// Reads a bitmap header.
pub fn parse_bmhd(d: &[u8]) -> (r: Result<Bmhd, IffError>)
    ensures
        r == bmhd_read(d@),
{
    if d.len() < 20 {
        return Err(IffError::invalid("ILBM BMHD: need 20 bytes"));
    }
    if d[9] > 3 {
        return Err(IffError::invalid("ILBM BMHD: unknown masking"));
    }
    if d[10] > 1 {
        return Err(IffError::unsupported("ILBM BMHD: unknown compression"));
    }
    Ok(
        Bmhd {
            width: read_be16(d, 0),
            height: read_be16(d, 2),
            x_origin: to_signed16(read_be16(d, 4)),
            y_origin: to_signed16(read_be16(d, 6)),
            n_planes: d[8],
            masking: if d[9] == 0 {
                Masking::NoMask
            } else if d[9] == 1 {
                Masking::HasMask
            } else if d[9] == 2 {
                Masking::HasTransparentColor
            } else {
                Masking::Lasso
            },
            compression: if d[10] == 0 {
                Compression::Uncompressed
            } else {
                Compression::ByteRun1
            },
            pad: d[11],
            transparent_color: read_be16(d, 12),
            x_aspect: d[14],
            y_aspect: d[15],
            page_width: to_signed16(read_be16(d, 16)),
            page_height: to_signed16(read_be16(d, 18)),
        },
    )
}

/// Writes a bitmap header.
pub fn write_bmhd(b: &Bmhd) -> (out: Vec<u8>)
    ensures
        out@ == bmhd_bytes(*b),
{
    let mut out: Vec<u8> = Vec::new();
    push_be16(&mut out, b.width);
    push_be16(&mut out, b.height);
    push_be16(&mut out, to_unsigned16(b.x_origin));
    push_be16(&mut out, to_unsigned16(b.y_origin));
    out.push(b.n_planes);
    out.push(
        match b.masking {
            Masking::NoMask => 0,
            Masking::HasMask => 1,
            Masking::HasTransparentColor => 2,
            Masking::Lasso => 3,
        },
    );
    out.push(
        match b.compression {
            Compression::Uncompressed => 0,
            Compression::ByteRun1 => 1,
        },
    );
    out.push(b.pad);
    push_be16(&mut out, b.transparent_color);
    out.push(b.x_aspect);
    out.push(b.y_aspect);
    push_be16(&mut out, to_unsigned16(b.page_width));
    push_be16(&mut out, to_unsigned16(b.page_height));
    assert(out@ =~= bmhd_bytes(*b));
    out
}

fn parse_cmap(d: &[u8]) -> (out: Vec<[u8; 3]>)
    ensures
        out@ == cmap_read(d@),
{
    let n: usize = d.len() / 3;
    let mut out: Vec<[u8; 3]> = Vec::new();
    let mut i: usize = 0;
    while i < n
        invariant
            n == d@.len() / 3,
            i <= n,
            d@.len() <= usize::MAX,
            out@ == cmap_read(d@).take(i as int),
        decreases n - i,
    {
        out.push([d[3 * i], d[3 * i + 1], d[3 * i + 2]]);
        i += 1;
        assert(out@ =~= cmap_read(d@).take(i as int));
    }
    assert(out@ =~= cmap_read(d@));
    out
}

fn write_cmap(pal: &[[u8; 3]]) -> (out: Vec<u8>)
    ensures
        out@ == cmap_bytes(pal@),
{
    let n: usize = pal.len();
    let mut out: Vec<u8> = Vec::new();
    let mut i: usize = 0;
    while i < n
        invariant
            n == pal@.len(),
            i <= n,
            out@ == cmap_bytes(pal@).take(3 * i),
        decreases n - i,
    {
        let c: [u8; 3] = pal[i];
        out.push(c[0]);
        out.push(c[1]);
        out.push(c[2]);
        i += 1;
        assert(out@ =~= cmap_bytes(pal@).take(3 * i));
    }
    assert(out@ =~= cmap_bytes(pal@));
    out
}

struct FoundParts {
    bmhd: Option<Bmhd>,
    palette: Vec<[u8; 3]>,
    camg: Camg,
    body: Option<Vec<u8>>,
}

impl FoundParts {
    spec fn view(&self) -> Parts {
        Parts {
            bmhd: self.bmhd,
            palette: self.palette@,
            camg: self.camg,
            body: match self.body {
                Some(v) => Some(v@),
                None => None,
            },
        }
    }

    fn take_in(&mut self, id: [u8; 4], body: &[u8]) -> (r: Result<(), IffError>)
        ensures
            match part_added(old(self).view(), id, body@) {
                Ok(next) => r is Ok && final(self).view() == next,
                Err(e) => r == Err::<(), IffError>(e),
            },
    {
        if same_id(id, ID_BMHD) {
            match parse_bmhd(body) {
                Ok(b) => {
                    self.bmhd = Some(b);
                },
                Err(e) => {
                    return Err(e);
                },
            }
        } else if same_id(id, ID_CMAP) {
            self.palette = parse_cmap(body);
        } else if same_id(id, ID_CAMG) {
            if body.len() < 4 {
                return Err(IffError::invalid("ILBM CAMG: need 4 bytes"));
            }
            self.camg = Camg { mode: read_be32(body, 0) };
        } else if same_id(id, ID_BODY) {
            self.body = Some(vstd::slice::slice_to_vec(body));
        }
        Ok(())
    }
}

#[verifier::loop_isolation(false)]
fn find_parts(d: &[u8]) -> (r: Result<FoundParts, IffError>)
    requires
        d@.len() >= 12,
    ensures
        match parts_read(d@, group_end(d@), 12, no_parts()) {
            Ok(parts) => r matches Ok(found) && found.view() == parts,
            Err(e) => r matches Err(f) && f == e,
        },
{
    let end: usize = find_group_end(d);
    let mut found = FoundParts {
        bmhd: None,
        palette: Vec::new(),
        camg: Camg { mode: 0 },
        body: None,
    };
    let mut at: usize = 12;
    let ghost target = parts_read(d@, end as int, 12, no_parts());
    assert(found.view().palette =~= Seq::<[u8; 3]>::empty());
    if end < 12 {
        return Ok(found);
    }
    while end - at >= 8
        invariant
            12 <= at <= end <= d@.len(),
            parts_read(d@, end as int, at as int, found.view()) == target,
        decreases end - at,
    {
        let size: usize = read_be32(d, at + 4) as usize;
        if size > end - at - 8 {
            return Err(IffError::invalid("ILBM: chunk extends past FORM"));
        }
        let id: [u8; 4] = read_id(d, at);
        let body: &[u8] = vstd::slice::slice_subrange(d, at + 8, at + 8 + size);
        match found.take_in(id, body) {
            Ok(()) => {},
            Err(e) => {
                return Err(e);
            },
        }
        let ghost next = after_chunk(d@, at as int);
        assert(parts_read(d@, end as int, next, found.view()) == target);
        at += 8 + size;
        if size % 2 == 1 && at < end {
            at += 1;
        }
        assert(parts_read(d@, end as int, next, found.view()) == parts_read(
            d@,
            end as int,
            at as int,
            found.view(),
        ));
    }
    Ok(found)
}

/// Rows without contents, for every plane of every scanline.
fn make_blank_rows(b: &Bmhd) -> (out: Vec<Vec<u8>>)
    ensures
        rows(out@) == blank_rows(*b),
        out@.len() == b.height * b.rows_per_line(),
{
    let n: usize = b.row_count();
    let mut out: Vec<Vec<u8>> = Vec::new();
    let mut i: usize = 0;
    while i < n
        invariant
            i <= n,
            out@.len() == i,
            forall|k: int| 0 <= k < i ==> (#[trigger] out@[k])@ =~= Seq::<u8>::empty(),
        decreases n - i,
    {
        out.push(Vec::new());
        i += 1;
    }
    assert(rows(out@) =~= blank_rows(*b));
    out
}

/// Reads a FORM ILBM.
pub fn parse_ilbm(d: &[u8]) -> (r: Result<IlbmImage, IffError>)
    ensures
        match ilbm_read(d@) {
            Ok(pic) => r matches Ok(img) && img@ == pic,
            Err(e) => r matches Err(f) && f == e,
        },
{
    reveal(ilbm_read);
    if d.len() < 12 {
        return Err(IffError::invalid("ILBM: file shorter than FORM header"));
    }
    if !same_id(read_id(d, 0), GROUP_FORM) {
        return Err(IffError::invalid("ILBM: missing FORM signature"));
    }
    if !same_id(read_id(d, 8), TYPE_ILBM) {
        return Err(IffError::invalid("ILBM: form type is not ILBM"));
    }
    let found: FoundParts = match find_parts(d) {
        Ok(found) => found,
        Err(e) => {
            return Err(e);
        },
    };
    let b: Bmhd = match found.bmhd {
        Some(b) => b,
        None => {
            return Err(IffError::invalid("ILBM: missing BMHD chunk"));
        },
    };
    let body: Vec<u8> = match found.body {
        Some(body) => body,
        None => {
            return Err(IffError::invalid("ILBM: missing BODY chunk"));
        },
    };
    if b.n_planes == 0 || b.n_planes > 8 {
        return Err(IffError::Unsupported(Reason::PlaneCount { planes: b.n_planes }));
    }
    let mut planar: Vec<Vec<u8>> = make_blank_rows(&b);
    match decode_rows(planar.as_mut_slice(), body.as_slice(), &b, "ILBM: BODY too short") {
        Ok(()) => {},
        Err(e) => {
            return Err(e);
        },
    }
    planar_to_rgba(planar.as_slice(), &b, found.palette.as_slice(), found.camg, true)
}

/// The chunks of a picture; palette and viewport mode are left out where they are empty.
pub open spec fn ilbm_chunks(pic: Picture) -> Seq<u8> {
    framed(ID_BMHD, bmhd_bytes(pic.bmhd)) + (if pic.palette.len() > 0 {
        framed(ID_CMAP, cmap_bytes(pic.palette))
    } else {
        Seq::empty()
    }) + (if pic.camg.mode != 0 {
        framed(ID_CAMG, be32_bytes(pic.camg.mode))
    } else {
        Seq::empty()
    }) + framed(ID_BODY, stored_rows(pic.planar(), pic.bmhd, 0))
}

/// The FORM ILBM of a picture.
pub open spec fn ilbm_bytes(pic: Picture) -> Seq<u8> {
    group_bytes(GROUP_FORM, TYPE_ILBM, ilbm_chunks(pic))
}

/// Writes a FORM ILBM.
pub fn encode_ilbm(image: &IlbmImage) -> (r: Result<Vec<u8>, IffError>)
    requires
        1 <= image.bmhd.n_planes <= 8 ==> image@.has_pixels(),
    ensures
        match r {
            Ok(out) => 1 <= image.bmhd.n_planes <= 8 && out@ == ilbm_bytes(image@),
            Err(e) => (image.bmhd.n_planes == 0 || image.bmhd.n_planes > 8) && e
                == IffError::Unsupported(Reason::PlaneCount { planes: image.bmhd.n_planes }),
        },
{
    let b: Bmhd = image.bmhd;
    if b.n_planes == 0 || b.n_planes > 8 {
        return Err(IffError::Unsupported(Reason::PlaneCount { planes: b.n_planes }));
    }
    let ghost pic = image@;
    let mut inner: Vec<u8> = Vec::new();
    let header: Vec<u8> = write_bmhd(&b);
    push_chunk(&mut inner, ID_BMHD, header.as_slice());
    if image.palette.len() > 0 {
        let cmap: Vec<u8> = write_cmap(image.palette.as_slice());
        push_chunk(&mut inner, ID_CMAP, cmap.as_slice());
    }
    if image.camg.mode != 0 {
        let mut mode: Vec<u8> = Vec::new();
        push_be32(&mut mode, image.camg.mode);
        assert(mode@ =~= be32_bytes(image.camg.mode));
        push_chunk(&mut inner, ID_CAMG, mode.as_slice());
    }
    let planar: Vec<Vec<u8>> = rgba_to_planar(image);
    let body: Vec<u8> = encode_rows(planar.as_slice(), &b);
    push_chunk(&mut inner, ID_BODY, body.as_slice());
    assert(inner@ =~= ilbm_chunks(pic));
    Ok(make_group(GROUP_FORM, TYPE_ILBM, inner.as_slice()))
}

/// Reading a written bitmap header gives the header.
pub proof fn law_bmhd_round_trip(b: Bmhd)
    ensures
        bmhd_bytes(b).len() == 20,
        bmhd_read(bmhd_bytes(b)) == Ok::<Bmhd, IffError>(b),
{
    law_be16_round_trip(b.width);
    law_be16_round_trip(b.height);
    law_be16_round_trip(unsigned16(b.x_origin));
    law_be16_round_trip(unsigned16(b.y_origin));
    law_be16_round_trip(b.transparent_color);
    law_be16_round_trip(unsigned16(b.page_width));
    law_be16_round_trip(unsigned16(b.page_height));
}

/// Reading a written palette gives the palette.
pub proof fn law_cmap_round_trip(pal: Seq<[u8; 3]>)
    ensures
        cmap_read(cmap_bytes(pal)) == pal,
{
    let d = cmap_bytes(pal);
    assert forall|i: int| 0 <= i < pal.len() implies cmap_read(d)[i] == pal[i] by {
        assert(d[3 * i] == pal[i][0] && d[3 * i + 1] == pal[i][1] && d[3 * i + 2] == pal[i][2]);
        assert(cmap_read(d)[i] =~= pal[i]);
    }
    assert(cmap_read(d) =~= pal);
}

/// The planar form has the shape that the header asks for.
pub proof fn lemma_planar_shaped(pic: Picture)
    ensures
        shaped(pic.planar(), pic.bmhd),
{
}

/// The chunks of a picture are found again, wherever they lie.
proof fn lemma_parts_back(d: Seq<u8>, pic: Picture)
    requires
        lies_at(d, 12, ilbm_chunks(pic)),
        12 + ilbm_chunks(pic).len() == d.len(),
        d.len() <= u32::MAX + 8,
    ensures
        parts_read(d, d.len() as int, 12, no_parts()) == Ok::<Parts, IffError>(
            Parts {
                bmhd: Some(pic.bmhd),
                palette: pic.palette,
                camg: pic.camg,
                body: Some(stored_rows(pic.planar(), pic.bmhd, 0)),
            },
        ),
{
    let end = d.len() as int;
    let header = framed(ID_BMHD, bmhd_bytes(pic.bmhd));
    let pal = if pic.palette.len() > 0 {
        framed(ID_CMAP, cmap_bytes(pic.palette))
    } else {
        Seq::empty()
    };
    let mode = if pic.camg.mode != 0 {
        framed(ID_CAMG, be32_bytes(pic.camg.mode))
    } else {
        Seq::empty()
    };
    let stored = stored_rows(pic.planar(), pic.bmhd, 0);
    let body = framed(ID_BODY, stored);
    lemma_lies_split(d, 12, header + pal + mode, body);
    lemma_lies_split(d, 12, header + pal, mode);
    lemma_lies_split(d, 12, header, pal);
    let at1 = 12int + header.len();
    let at2 = at1 + pal.len();
    let at3 = at2 + mode.len();
    law_bmhd_round_trip(pic.bmhd);
    lemma_framed(d, 12, ID_BMHD, bmhd_bytes(pic.bmhd));
    let parts1 = Parts { bmhd: Some(pic.bmhd), ..no_parts() };
    assert(parts_read(d, end, 12, no_parts()) == parts_read(d, end, at1, parts1));
    let parts2 = Parts { palette: pic.palette, ..parts1 };
    assert(parts_read(d, end, at1, parts1) == parts_read(d, end, at2, parts2)) by {
        if pic.palette.len() > 0 {
            law_cmap_round_trip(pic.palette);
            lemma_framed(d, at1, ID_CMAP, cmap_bytes(pic.palette));
            lemma_ids();
        } else {
            assert(pic.palette =~= Seq::empty());
        }
    }
    let parts3 = Parts { camg: pic.camg, ..parts2 };
    assert(parts_read(d, end, at2, parts2) == parts_read(d, end, at3, parts3)) by {
        if pic.camg.mode != 0 {
            law_be32_round_trip(pic.camg.mode);
            lemma_framed(d, at2, ID_CAMG, be32_bytes(pic.camg.mode));
            lemma_ids();
        }
    }
    lemma_framed(d, at3, ID_BODY, stored);
    lemma_ids();
    let parts4 = Parts { body: Some(stored), ..parts3 };
    assert(parts_read(d, end, at3, parts3) == parts_read(d, end, end, parts4));
}

proof fn lemma_ids()
    ensures
        ID_CMAP != ID_BMHD,
        ID_CAMG != ID_BMHD,
        ID_CAMG != ID_CMAP,
        ID_BODY != ID_BMHD,
        ID_BODY != ID_CMAP,
        ID_BODY != ID_CAMG,
{
    assert(ID_CMAP[0] != ID_BMHD[0]);
    assert(ID_CAMG[0] != ID_BMHD[0]);
    assert(ID_CAMG[1] != ID_CMAP[1]);
    assert(ID_BODY[1] != ID_BMHD[1]);
    assert(ID_BODY[0] != ID_CMAP[0]);
    assert(ID_BODY[0] != ID_CAMG[0]);
}

/// The parts of a written picture are found again.
#[verifier::spinoff_prover]
#[verifier::rlimit(40)]
proof fn lemma_ilbm_parts(pic: Picture)
    requires
        ilbm_bytes(pic).len() <= u32::MAX + 8,
    ensures
        ilbm_read(ilbm_bytes(pic)) == picture_made(
            Parts {
                bmhd: Some(pic.bmhd),
                palette: pic.palette,
                camg: pic.camg,
                body: Some(stored_rows(pic.planar(), pic.bmhd, 0)),
            },
        ),
{
    reveal(ilbm_read);
    let d = ilbm_bytes(pic);
    lemma_group(GROUP_FORM, TYPE_ILBM, ilbm_chunks(pic));
    lemma_parts_back(d, pic);
}

/// Reading a written picture gives the picture, where its planar form loses nothing.
pub proof fn law_ilbm_round_trip(pic: Picture)
    requires
        pic.lossless(true),
        1 <= pic.bmhd.n_planes <= 8,
        ilbm_bytes(pic).len() <= u32::MAX + 8,
    ensures
        ilbm_read(ilbm_bytes(pic)) == Ok::<Picture, IffError>(pic),
{
    lemma_ilbm_parts(pic);
    lemma_planar_shaped(pic);
    law_body_round_trip(
        blank_rows(pic.bmhd),
        pic.planar(),
        pic.bmhd,
        "ILBM: BODY too short",
    );
    law_planar_round_trip(pic, true);
}

/// The places of a bitmap header's fields. There are four kinds of masking and two of storage.
pub proof fn law_bmhd_fields(d: Seq<u8>)
    ensures
        bmhd_read(d) is Ok <==> d.len() >= 20 && d[9] <= 3 && d[10] <= 1,
        bmhd_read(d) matches Ok(b) ==> {
            &&& b.width == d[0] * 256 + d[1]
            &&& b.height == d[2] * 256 + d[3]
            &&& b.n_planes == d[8]
            &&& b.masking == Masking::NoMask <==> d[9] == 0
            &&& b.masking == Masking::HasMask <==> d[9] == 1
            &&& b.masking == Masking::HasTransparentColor <==> d[9] == 2
            &&& b.compression == Compression::Uncompressed <==> d[10] == 0
            &&& b.transparent_color == d[12] * 256 + d[13]
            &&& b.x_aspect == d[14]
            &&& b.y_aspect == d[15]
        },
{
}

/// A palette has a colour for every three bytes: red, green and blue.
pub proof fn law_cmap_colours(d: Seq<u8>, i: int, q: int)
    requires
        0 <= i < d.len() / 3,
        0 <= q < 3,
    ensures
        cmap_read(d).len() == d.len() / 3,
        cmap_read(d)[i][q] == d[3 * i + q],
{
}

} // verus!
