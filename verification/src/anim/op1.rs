//! Operation 1, XOR.
//!
//! The payload is a BODY whose rows are combined with those of the bitmap by
//! exclusive or. It covers the whole bitmap; the header's mask tells which planes
//! have rows in it.

use vstd::prelude::*;
use crate::anim::anhd::Anhd;
use crate::bitmap::{lemma_line_bounds, plane_of, rows, shaped};
use crate::bytes::{copy_range, lemma_lies_split, lies_at, viewed};
use crate::error::{IffError, Reason};
use crate::ilbm::{Bmhd, Compression, Masking};
use crate::ilbm::body::{
    lemma_row_back, push_row, read_row, row_stored_at, stored_form, stored_rows,
};
use crate::ilbm::planar::{has_bit, test_bit, weight};
use vstd::arithmetic::power2::{lemma2_to64, lemma_pow2_strictly_increases, pow2};

verus! {

/// The mask with a bit for every colour plane; it has eight bits.
pub open spec fn full_mask(n_planes: int) -> u8 {
    (weight(n_planes) - 1) as u8
}

/// The mask with a bit for every colour plane.
pub fn op1_full_plane_mask(n_planes: usize) -> (m: u8)
    ensures
        m == full_mask(n_planes as int),
{
    if n_planes >= 8 {
        0xFF
    } else if n_planes == 7 {
        0x7F
    } else if n_planes == 6 {
        0x3F
    } else if n_planes == 5 {
        0x1F
    } else if n_planes == 4 {
        0xF
    } else if n_planes == 3 {
        0x7
    } else if n_planes == 2 {
        0x3
    } else if n_planes == 1 {
        0x1
    } else {
        0
    }
}

/// The mask leaves out a plane.
pub open spec fn sparse(a: Anhd, b: Bmhd) -> bool {
    a.mask != 0 && a.mask != full_mask(b.n_planes as int)
}

/// Whether row `k` of a scanline is in the payload.
pub open spec fn row_present(a: Anhd, b: Bmhd, k: int) -> bool {
    !sparse(a, b) || has_bit(a.mask, k)
}

/// A row combined with another, as far as both reach.
pub open spec fn xor_row(dst: Seq<u8>, src: Seq<u8>) -> Seq<u8> {
    Seq::new(
        dst.len(),
        |i: int|
            if i < src.len() {
                dst[i] ^ src[i]
            } else {
                dst[i]
            },
    )
}

/// The rows from `i` on combined with those stored from byte `at` on, up to a faulty one.
pub open spec fn op1_rows(d: Seq<u8>, at: int, a: Anhd, b: Bmhd, rs: Seq<Seq<u8>>, i: int) -> (
    Seq<Seq<u8>>,
    Result<(), IffError>,
)
    decreases b.height * b.rows_per_line() - i,
{
    if i >= b.height * b.rows_per_line() {
        (rs, Ok(()))
    } else if !row_present(a, b, plane_of(b, i)) {
        op1_rows(d, at, a, b, rs, i + 1)
    } else {
        match row_stored_at(d, at, b, "ANIM op 1: uncompressed XOR BODY too short") {
            Ok((row, next)) => op1_rows(
                d,
                next,
                a,
                b,
                rs.update(i, xor_row(rs[i], row)),
                i + 1,
            ),
            Err(e) => (rs, Err(e)),
        }
    }
}

/// What an operation-1 payload makes of a bitmap. Only the whole bitmap can be addressed,
/// and a mask row leaves no choice of planes.
pub open spec fn op1_applied(a: Anhd, d: Seq<u8>, b: Bmhd, rs: Seq<Seq<u8>>) -> (
    Seq<Seq<u8>>,
    Result<(), IffError>,
) {
    if !(a.w == b.width && a.h == b.height && a.x == 0 && a.y == 0) {
        (
            rs,
            Err(
                IffError::unsupported(
                    "ANIM op 1: sub-rectangle XOR BODY layout is not described (full-frame rectangle only)",
                ),
            ),
        )
    } else if sparse(a, b) && b.masking == Masking::HasMask {
        (
            rs,
            Err(
                IffError::unsupported(
                    "ANIM op 1: plane-masked XOR BODY on a HasMask bitmap is not described",
                ),
            ),
        )
    } else {
        op1_rows(d, 0, a, b, rs, 0)
    }
}

/// There is a row of the bitmap, of `n` rows, for every row that is read from byte `at` on.
pub open spec fn op1_rows_present(d: Seq<u8>, at: int, a: Anhd, b: Bmhd, n: int, i: int) -> bool
    decreases b.height * b.rows_per_line() - i,
{
    if i >= b.height * b.rows_per_line() {
        true
    } else if !row_present(a, b, plane_of(b, i)) {
        op1_rows_present(d, at, a, b, n, i + 1)
    } else {
        match row_stored_at(d, at, b, "ANIM op 1: uncompressed XOR BODY too short") {
            Ok((row, next)) => i < n && op1_rows_present(d, next, a, b, n, i + 1),
            Err(e) => true,
        }
    }
}

/// A bitmap of `n` rows has every row that a payload gets to.
pub open spec fn op1_present(a: Anhd, d: Seq<u8>, b: Bmhd, n: int) -> bool {
    a.w == b.width && a.h == b.height && a.x == 0 && a.y == 0 && !(sparse(a, b) && b.masking
        == Masking::HasMask) ==> op1_rows_present(d, 0, a, b, n, 0)
}

/// A whole bitmap has every row.
pub proof fn lemma_op1_present(d: Seq<u8>, at: int, a: Anhd, b: Bmhd, n: int, i: int)
    requires
        n >= b.height * b.rows_per_line(),
    ensures
        op1_rows_present(d, at, a, b, n, i),
    decreases b.height * b.rows_per_line() - i,
{
    if i < b.height * b.rows_per_line() {
        if !row_present(a, b, plane_of(b, i)) {
            lemma_op1_present(d, at, a, b, n, i + 1);
        } else if let Ok((row, next)) = row_stored_at(
            d,
            at,
            b,
            "ANIM op 1: uncompressed XOR BODY too short",
        ) {
            lemma_op1_present(d, next, a, b, n, i + 1);
        }
    }
}

/// How many of the rows below `i` belong to a plane whose mask bit is set, where a scanline has
/// `n` rows.
pub open spec fn masked_rows(mask: u8, n: int, i: int) -> int
    decreases i,
{
    if i <= 0 {
        0
    } else {
        masked_rows(mask, n, i - 1) + if mask as int / (pow2(((i - 1) % n) as nat) as int) % 2
            == 1 {
            1int
        } else {
            0
        }
    }
}

/// Where stored row `j` of a payload starts.
pub open spec fn stored_start(d: Seq<u8>, b: Bmhd, j: int) -> int
    decreases j,
{
    if j <= 0 {
        0
    } else {
        match row_stored_at(
            d,
            stored_start(d, b, j - 1),
            b,
            "ANIM op 1: uncompressed XOR BODY too short",
        ) {
            Ok((row, next)) => next,
            Err(e) => stored_start(d, b, j - 1),
        }
    }
}

/// Whether `new` is `old` combined, by exclusive or, with stored row `j` of a payload.
pub open spec fn combined_with(
    new: Seq<u8>,
    old_row: Seq<u8>,
    d: Seq<u8>,
    b: Bmhd,
    j: int,
) -> bool {
    row_stored_at(
        d,
        stored_start(d, b, j),
        b,
        "ANIM op 1: uncompressed XOR BODY too short",
    ) matches Ok((row, _)) && new.len() == old_row.len() && forall|k: int|
        0 <= k < new.len() ==> #[trigger] new[k] == if k < row.len() {
            old_row[k] ^ row[k]
        } else {
            old_row[k]
        }
}

/// A mask bit as it is tested.
proof fn lemma_mask_bit(mask: u8, p: int)
    requires
        0 <= p,
    ensures
        has_bit(mask, p) == (mask as int / (pow2(p as nat) as int) % 2 == 1),
{
    lemma2_to64();
    if p >= 8 {
        if p > 8 {
            lemma_pow2_strictly_increases(8, p as nat);
        }
        vstd::arithmetic::div_mod::lemma_basic_div(mask as int, pow2(p as nat) as int);
    } else {
        assert(p == 0 || p == 1 || p == 2 || p == 3 || p == 4 || p == 5 || p == 6 || p == 7);
    }
}

proof fn lemma_op1_rows(
    d: Seq<u8>,
    at: int,
    a: Anhd,
    b: Bmhd,
    start: Seq<Seq<u8>>,
    rs: Seq<Seq<u8>>,
    i: int,
    j: int,
    out: Seq<Seq<u8>>,
)
    requires
        0 <= i,
        0 <= j,
        at == stored_start(d, b, j),
        sparse(a, b) ==> b.masking != Masking::HasMask && j == masked_rows(
            a.mask,
            b.n_planes as int,
            i,
        ),
        !sparse(a, b) ==> j == i,
        rs.len() == start.len(),
        start.len() >= b.height * b.rows_per_line(),
        op1_rows(d, at, a, b, rs, i) == (out, Ok::<(), IffError>(())),
        forall|k: int| i <= k < rs.len() ==> #[trigger] rs[k] == start[k],
    ensures
        out.len() == start.len(),
        forall|k: int| 0 <= k < i && k < rs.len() ==> #[trigger] out[k] == rs[k],
        forall|k: int|
            b.height * b.rows_per_line() <= k < start.len() && i <= k ==> #[trigger] out[k]
                == start[k],
        !sparse(a, b) ==> forall|k: int|
            i <= k < b.height * b.rows_per_line() ==> combined_with(
                #[trigger] out[k],
                start[k],
                d,
                b,
                k,
            ),
        sparse(a, b) ==> forall|k: int|
            i <= k < b.height * b.rows_per_line() ==> if has_bit(a.mask, k % b.n_planes as int) {
                combined_with(
                    #[trigger] out[k],
                    start[k],
                    d,
                    b,
                    masked_rows(a.mask, b.n_planes as int, k),
                )
            } else {
                out[k] == start[k]
            },
    decreases b.height * b.rows_per_line() - i,
{
    if i < b.height * b.rows_per_line() {
        lemma_line_bounds(b, i);
        let p = plane_of(b, i);
        lemma_mask_bit(a.mask, p);
        if sparse(a, b) {
            assert(p == i % b.n_planes as int);
        }
        if !row_present(a, b, p) {
            lemma_op1_rows(d, at, a, b, start, rs, i + 1, j, out);
        } else {
            let (row, next) = row_stored_at(
                d,
                at,
                b,
                "ANIM op 1: uncompressed XOR BODY too short",
            )->Ok_0;
            let after = rs.update(i, xor_row(rs[i], row));
            lemma_op1_rows(d, next, a, b, start, after, i + 1, j + 1, out);
            assert(out[i] == after[i]);
            assert(combined_with(out[i], start[i], d, b, j));
        }
    }
}

/// Where the mask names some of the planes only, a payload that can be applied leaves the rows
/// of all other planes as they were. The rows of the planes whose mask bit is set are combined,
/// scanline by scanline and plane by plane, each with the next row of the payload.
pub proof fn law_op1_masked(a: Anhd, d: Seq<u8>, b: Bmhd, rs: Seq<Seq<u8>>, out: Seq<Seq<u8>>)
    requires
        shaped(rs, b),
        a.mask != 0,
        b.n_planes >= 8 ==> a.mask != 0xFF,
        b.n_planes < 8 ==> a.mask != pow2(b.n_planes as nat) - 1,
        op1_applied(a, d, b, rs) == (out, Ok::<(), IffError>(())),
    ensures
        b.masking != Masking::HasMask,
        out.len() == rs.len(),
        forall|i: int|
            0 <= i < rs.len() ==> if a.mask as int / (pow2((i % b.n_planes as int) as nat) as int)
                % 2 == 1 {
                combined_with(
                    #[trigger] out[i],
                    rs[i],
                    d,
                    b,
                    masked_rows(a.mask, b.n_planes as int, i),
                )
            } else {
                out[i] == rs[i]
            },
{
    lemma2_to64();
    assert(b.n_planes < 8 ==> full_mask(b.n_planes as int) == pow2(b.n_planes as nat) - 1);
    assert(sparse(a, b));
    lemma_op1_rows(d, 0, a, b, rs, rs, 0, 0, out);
    assert forall|i: int| 0 <= i < rs.len() implies if a.mask as int / (pow2(
        (i % b.n_planes as int) as nat,
    ) as int) % 2 == 1 {
        combined_with(
            #[trigger] out[i],
            rs[i],
            d,
            b,
            masked_rows(a.mask, b.n_planes as int, i),
        )
    } else {
        out[i] == rs[i]
    } by {
        lemma_line_bounds(b, i);
        lemma_mask_bit(a.mask, i % b.n_planes as int);
    }
}

/// Where the mask is zero or names all planes, every row, mask rows too, is combined with the
/// row at its place in the payload.
pub proof fn law_op1_unmasked(a: Anhd, d: Seq<u8>, b: Bmhd, rs: Seq<Seq<u8>>, out: Seq<Seq<u8>>)
    requires
        shaped(rs, b),
        a.mask == 0 || b.n_planes >= 8 && a.mask == 0xFF || b.n_planes < 8 && a.mask == pow2(
            b.n_planes as nat,
        ) - 1,
        op1_applied(a, d, b, rs) == (out, Ok::<(), IffError>(())),
    ensures
        out.len() == rs.len(),
        forall|i: int|
            0 <= i < rs.len() ==> combined_with(#[trigger] out[i], rs[i], d, b, i),
{
    lemma2_to64();
    assert(b.n_planes < 8 ==> full_mask(b.n_planes as int) == pow2(b.n_planes as nat) - 1);
    assert(!sparse(a, b));
    lemma_op1_rows(d, 0, a, b, rs, rs, 0, 0, out);
}

/// In a payload that is not compressed, stored row `j` starts where the rows before it end.
pub proof fn law_plain_stored_start(d: Seq<u8>, b: Bmhd, j: int)
    requires
        0 <= j,
        b.compression == Compression::Uncompressed,
        j * b.row_len() <= d.len(),
    ensures
        stored_start(d, b, j) == j * b.row_len(),
        (j + 1) * b.row_len() <= d.len() ==> row_stored_at(
            d,
            j * b.row_len(),
            b,
            "ANIM op 1: uncompressed XOR BODY too short",
        ) == Ok::<(Seq<u8>, int), IffError>(
            (d.subrange(j * b.row_len(), (j + 1) * b.row_len()), (j + 1) * b.row_len()),
        ),
    decreases j,
{
    let w = b.row_len();
    assert((j + 1) * w == j * w + w && (j - 1) * w == j * w - w && 0 * w == 0)
        by (nonlinear_arith);
    if j > 0 {
        law_plain_stored_start(d, b, j - 1);
    }
}

/// A payload is refused where its header does not cover the whole bitmap, and where it leaves
/// out planes of a bitmap with a mask.
pub proof fn law_op1_refused(a: Anhd, d: Seq<u8>, b: Bmhd, rs: Seq<Seq<u8>>)
    ensures
        a.w != b.width || a.h != b.height || a.x != 0 || a.y != 0 ==> {
            &&& op1_applied(a, d, b, rs).0 == rs
            &&& op1_applied(a, d, b, rs).1 matches Err(IffError::Unsupported(_))
        },
        b.masking == Masking::HasMask && b.n_planes < 8 && a.mask != 0 && a.mask != pow2(
            b.n_planes as nat,
        ) - 1 ==> {
            &&& op1_applied(a, d, b, rs).0 == rs
            &&& op1_applied(a, d, b, rs).1 matches Err(IffError::Unsupported(_))
        },
{
    lemma2_to64();
    assert(b.n_planes < 8 ==> full_mask(b.n_planes as int) == pow2(b.n_planes as nat) - 1);
}

/// Combines a row with another, as far as both reach.
fn xor_row_into(dst: &mut Vec<u8>, src: &[u8])
    ensures
        final(dst)@ == xor_row(old(dst)@, src@),
{
    let ghost dst0 = dst@;
    let n: usize = if dst.len() < src.len() {
        dst.len()
    } else {
        src.len()
    };
    let mut i: usize = 0;
    while i < n
        invariant
            i <= n <= dst@.len(),
            n <= src@.len(),
            n == dst0.len() || n == src@.len(),
            dst@.len() == dst0.len(),
            forall|k: int|
                0 <= k < dst0.len() ==> #[trigger] dst@[k] == if k < i {
                    dst0[k] ^ src@[k]
                } else {
                    dst0[k]
                },
        decreases n - i,
    {
        let v: u8 = dst[i] ^ src[i];
        dst.set(i, v);
        i += 1;
    }
    assert(dst@ =~= xor_row(dst0, src@));
}

/// Applies an operation-1 payload.
#[verifier::loop_isolation(false)]
pub fn apply_op1(anhd: &Anhd, planar: &mut [Vec<u8>], delta: &[u8], bmhd: &Bmhd) -> (r: Result<
    (),
    IffError,
>)
    requires
        op1_present(*anhd, delta@, *bmhd, old(planar)@.len() as int),
    ensures
        (rows(final(planar)@), r) == op1_applied(*anhd, delta@, *bmhd, rows(old(planar)@)),
        final(planar)@.len() == old(planar)@.len(),
{
    let n_planes: usize = bmhd.n_planes as usize;
    if !(anhd.w == bmhd.width && anhd.h == bmhd.height && anhd.x == 0 && anhd.y == 0) {
        return Err(
            IffError::unsupported(
                "ANIM op 1: sub-rectangle XOR BODY layout is not described (full-frame rectangle only)",
            ),
        );
    }
    let partial: bool = anhd.mask != 0 && anhd.mask != op1_full_plane_mask(n_planes);
    if partial && bmhd.masking == Masking::HasMask {
        return Err(
            IffError::unsupported(
                "ANIM op 1: plane-masked XOR BODY on a HasMask bitmap is not described",
            ),
        );
    }
    let total: usize = delta.len();
    let per_line: usize = bmhd.planes_per_row();
    let count: usize = bmhd.row_count();
    let ghost a = *anhd;
    let ghost b = *bmhd;
    let ghost target = op1_rows(delta@, 0, a, b, rows(planar@), 0);
    let mut at: usize = 0;
    let mut i: usize = 0;
    while i < count
        invariant
            i <= count,
            at <= total,
            planar@.len() == old(planar)@.len(),
            op1_rows_present(delta@, at as int, a, b, planar@.len() as int, i as int),
            op1_rows(delta@, at as int, a, b, rows(planar@), i as int) == target,
        decreases count - i,
    {
        proof {
            lemma_line_bounds(b, i as int);
        }
        if !partial || test_bit(anhd.mask, i % per_line) {
            let (row, next) = match read_row(
                delta,
                at,
                bmhd,
                "ANIM op 1: uncompressed XOR BODY too short",
            ) {
                Ok(x) => x,
                Err(e) => {
                    return Err(e);
                },
            };
            let ghost before = rows(planar@);
            xor_row_into(&mut planar[i], row.as_slice());
            assert(rows(planar@) =~= before.update(i as int, xor_row(before[i as int], row@)));
            at = next;
        }
        i += 1;
    }
    Ok(())
}

/// The difference of two bitmaps.
pub open spec fn xor_rows(prev: Seq<Seq<u8>>, cur: Seq<Seq<u8>>) -> Seq<Seq<u8>> {
    Seq::new(prev.len(), |i: int| xor_row(prev[i], cur[i]))
}

/// The operation-1 payload that turns `prev` into `cur`: their difference, stored as the
/// header asks for.
pub open spec fn op1_body(prev: Seq<Seq<u8>>, cur: Seq<Seq<u8>>, b: Bmhd) -> Seq<u8> {
    stored_rows(xor_rows(prev, cur), b, 0)
}

/// What encoding the step from one bitmap to the next gives: the payload, or a fault of
/// the bitmaps' shape.
pub open spec fn op1_encoded(prev: Seq<Seq<u8>>, cur: Seq<Seq<u8>>, b: Bmhd) -> Result<
    Seq<u8>,
    IffError,
> {
    let count = b.height * b.rows_per_line();
    if prev.len() != count || cur.len() != count {
        Err(
            IffError::Invalid(
                Reason::RowCount {
                    op: "1",
                    prev: prev.len() as usize,
                    cur: cur.len() as usize,
                    expected: count as usize,
                },
            ),
        )
    } else if !(shaped(prev, b) && shaped(cur, b)) {
        Err(IffError::invalid("ANIM op 1 encode: row length mismatch"))
    } else {
        Ok(op1_body(prev, cur, b))
    }
}

/// Encodes the payload that turns one bitmap into the next.
#[verifier::loop_isolation(false)]
pub fn encode_op1_body(prev_planar: &[Vec<u8>], cur_planar: &[Vec<u8>], bmhd: &Bmhd) -> (r: Result<
    Vec<u8>,
    IffError,
>)
    ensures
        viewed(r) == op1_encoded(rows(prev_planar@), rows(cur_planar@), *bmhd),
{
    let row_bytes: usize = bmhd.row_bytes();
    let expected: usize = bmhd.row_count();
    if prev_planar.len() != expected || cur_planar.len() != expected {
        return Err(
            IffError::Invalid(
                Reason::RowCount {
                    op: "1",
                    prev: prev_planar.len(),
                    cur: cur_planar.len(),
                    expected: expected,
                },
            ),
        );
    }
    let ghost prev = rows(prev_planar@);
    let ghost cur = rows(cur_planar@);
    let ghost b = *bmhd;
    let ghost all = xor_rows(prev, cur);
    let mut out: Vec<u8> = Vec::new();
    let mut i: usize = 0;
    assert(out@ + stored_rows(all, b, 0) =~= stored_rows(all, b, 0));
    while i < expected
        invariant
            i <= expected,
            forall|k: int| 0 <= k < i ==> (#[trigger] prev[k]).len() == row_bytes,
            forall|k: int| 0 <= k < i ==> (#[trigger] cur[k]).len() == row_bytes,
            out@ + stored_rows(all, b, i as int) == stored_rows(all, b, 0),
        decreases expected - i,
    {
        assert(prev[i as int] == prev_planar@[i as int]@);
        assert(cur[i as int] == cur_planar@[i as int]@);
        if prev_planar[i].len() != row_bytes || cur_planar[i].len() != row_bytes {
            return Err(IffError::invalid("ANIM op 1 encode: row length mismatch"));
        }
        let mut row: Vec<u8> = copy_range(prev_planar[i].as_slice(), 0, row_bytes);
        assert(row@ =~= prev[i as int]);
        xor_row_into(&mut row, cur_planar[i].as_slice());
        let ghost out0 = out@;
        push_row(&mut out, row.as_slice(), bmhd);
        assert(row@ == all[i as int]);
        assert(out@ + stored_rows(all, b, i + 1) =~= out0 + stored_rows(all, b, i as int));
        i += 1;
    }
    assert(out@ =~= stored_rows(all, b, 0));
    Ok(out)
}

proof fn lemma_xor_back(x: u8, y: u8)
    by (bit_vector)
    ensures
        x ^ (x ^ y) == y,
{
}

proof fn lemma_op1_back(
    d: Seq<u8>,
    at: int,
    a: Anhd,
    b: Bmhd,
    rs: Seq<Seq<u8>>,
    prev: Seq<Seq<u8>>,
    cur: Seq<Seq<u8>>,
    i: int,
)
    requires
        shaped(prev, b),
        shaped(cur, b),
        !sparse(a, b),
        rs.len() == cur.len(),
        0 <= i <= cur.len(),
        forall|k: int| 0 <= k < i ==> rs[k] == cur[k],
        forall|k: int| i <= k < rs.len() ==> rs[k] == prev[k],
        lies_at(d, at, stored_rows(xor_rows(prev, cur), b, i)),
    ensures
        op1_rows(d, at, a, b, rs, i) == (cur, Ok::<(), IffError>(())),
    decreases cur.len() - i,
{
    if i < cur.len() {
        let diff = xor_rows(prev, cur);
        let short = "ANIM op 1: uncompressed XOR BODY too short";
        lemma_lies_split(d, at, stored_form(diff[i], b), stored_rows(diff, b, i + 1));
        lemma_row_back(d, at, b, short, diff[i]);
        assert(xor_row(rs[i], diff[i]) =~= cur[i]) by {
            assert forall|k: int| 0 <= k < cur[i].len() implies xor_row(rs[i], diff[i])[k]
                == cur[i][k] by {
                lemma_xor_back(prev[i][k], cur[i][k]);
            }
        }
        lemma_op1_back(
            d,
            at + stored_form(diff[i], b).len(),
            a,
            b,
            rs.update(i, xor_row(rs[i], diff[i])),
            prev,
            cur,
            i + 1,
        );
    } else {
        assert(rs =~= cur);
    }
}

/// Applying an encoded payload to the earlier bitmap gives the later one, mask rows and
/// all, where the header covers the whole bitmap and all planes.
pub proof fn law_op1_round_trip(
    a: Anhd,
    prev: Seq<Seq<u8>>,
    cur: Seq<Seq<u8>>,
    b: Bmhd,
    d: Seq<u8>,
)
    requires
        a.w == b.width,
        a.h == b.height,
        a.x == 0,
        a.y == 0,
        a.mask == 0 || a.mask == full_mask(b.n_planes as int),
        op1_encoded(prev, cur, b) == Ok::<Seq<u8>, IffError>(d),
    ensures
        op1_applied(a, d, b, prev) == (cur, Ok::<(), IffError>(())),
{
    assert(d.subrange(0, d.len() as int) =~= d);
    lemma_op1_back(d, 0, a, b, prev, prev, cur, 0);
}

} // verus!
