//! Delta frames of every operation.

use vstd::prelude::*;
use crate::anim::anhd::Anhd;
use crate::anim::flat::{plane_bytes, with_plane};
use crate::anim::op1::{apply_op1, lemma_op1_present, op1_applied, op1_rows, xor_row};
use crate::anim::op23::{apply_op23, lemma_op23_present, op23_applied, op23_groups, op23_planes};
use crate::anim::op4::{
    apply_op4, op4_applied, op4_end, op4_field, op4_list, op4_options, op4_planes, op4_size,
    write_words, Op4Options,
};
use crate::anim::op5::{addressed_planes, apply_op5, op5_applied, op5_column, op5_plane, op5_planes};
use crate::anim::op7::{apply_op7, item_size, op7_applied, op7_column, op7_plane, op7_planes};
use crate::bitmap::{advance, items_in, rows, shaped, write_run};
use crate::bytes::be32;
use crate::error::{IffError, Reason};
use crate::ilbm::Bmhd;
use crate::ilbm::body::{body_read, decode_rows, row_stored_at, rows_replaced};
use crate::ilbm::byterun1::lemma_unpacked;

verus! {

/// What a delta frame makes of an earlier bitmap.
#[verifier::opaque]
pub open spec fn delta_applied(a: Anhd, d: Seq<u8>, b: Bmhd, rs: Seq<Seq<u8>>) -> (
    Seq<Seq<u8>>,
    Result<(), IffError>,
) {
    if a.operation == 0 {
        body_read(d, b, "ANIM op 0: short BODY", rs)
    } else if a.operation == 1 {
        op1_applied(a, d, b, rs)
    } else if a.operation == 2 {
        op23_applied(d, b, rs, true)
    } else if a.operation == 3 {
        op23_applied(d, b, rs, false)
    } else if a.operation == 4 {
        op4_applied(d, b, rs, a.bits)
    } else if a.operation == 5 {
        op5_applied(d, b, rs)
    } else if a.operation == 7 {
        op7_applied(d, b, rs, a.bits % 2 == 1)
    } else {
        (rs, Err(IffError::Unsupported(Reason::Operation { operation: a.operation })))
    }
}

/// Applies the payload of a delta frame.
pub fn apply_delta(anhd: &Anhd, planar: &mut [Vec<u8>], delta: &[u8], bmhd: &Bmhd) -> (r: Result<
    (),
    IffError,
>)
    requires
        shaped(rows(old(planar)@), *bmhd),
    ensures
        (rows(final(planar)@), r) == delta_applied(*anhd, delta@, *bmhd, rows(old(planar)@)),
        shaped(rows(final(planar)@), *bmhd),
{
    proof {
        reveal(delta_applied);
        let rs = rows(planar@);
        lemma_op1_present(delta@, 0, *anhd, *bmhd, rs.len() as int, 0);
        lemma_op23_present(delta@, *bmhd, 2, rs, 0);
        lemma_op23_present(delta@, *bmhd, 4, rs, 0);
        law_delta_keeps_shape(*anhd, delta@, *bmhd, rs);
    }
    let op: u8 = anhd.operation;
    if op == 0 {
        decode_rows(planar, delta, bmhd, "ANIM op 0: short BODY")
    } else if op == 1 {
        apply_op1(anhd, planar, delta, bmhd)
    } else if op == 2 {
        apply_op23(planar, delta, bmhd, true)
    } else if op == 3 {
        apply_op23(planar, delta, bmhd, false)
    } else if op == 4 {
        apply_op4(anhd.bits, planar, delta, bmhd)
    } else if op == 5 {
        apply_op5(planar, delta, bmhd)
    } else if op == 7 {
        apply_op7(planar, delta, bmhd, anhd.bits % 2 == 1)
    } else {
        Err(IffError::Unsupported(Reason::Operation { operation: op }))
    }
}

proof fn lemma_op5_column_shape(
    d: Seq<u8>,
    b: Bmhd,
    p: int,
    col: int,
    rs: Seq<Seq<u8>>,
    c: int,
    row: int,
)
    requires
        shaped(rs, b),
    ensures
        shaped(op5_column(d, b, p, col, rs, c, row).0, b),
    decreases d.len() - c,
{
    if c >= d.len() || d[c] == 0 {
    } else if d[c] < 0x80 {
        lemma_op5_column_shape(d, b, p, col, rs, c + 1, advance(b, row, d[c] as int));
    } else if d[c] == 0x80 {
        if c + 2 < d.len() {
            let n = d[c + 1] as int;
            let next = write_run(rs, b, p, col, row, items_in(d, c + 2, 1, 0, n));
            lemma_op5_column_shape(d, b, p, col, next, c + 3, advance(b, row, n));
        }
    } else {
        let n = d[c] - 0x80;
        if c + 1 + n <= d.len() {
            let next = write_run(rs, b, p, col, row, items_in(d, c + 1, 1, 1, n));
            lemma_op5_column_shape(d, b, p, col, next, c + 1 + n, advance(b, row, n));
        }
    }
}

proof fn lemma_op5_plane_shape(d: Seq<u8>, b: Bmhd, p: int, rs: Seq<Seq<u8>>, c: int, col: int)
    requires
        shaped(rs, b),
    ensures
        shaped(op5_plane(d, b, p, rs, c, col).0, b),
    decreases b.row_len() - col,
{
    if col < b.row_len() {
        lemma_op5_column_shape(d, b, p, col, rs, c, 0);
        if let (next, Ok(c2)) = op5_column(d, b, p, col, rs, c, 0) {
            lemma_op5_plane_shape(d, b, p, next, c2, col + 1);
        }
    }
}

proof fn lemma_op5_shape(d: Seq<u8>, b: Bmhd, rs: Seq<Seq<u8>>, p: int)
    requires
        shaped(rs, b),
    ensures
        shaped(op5_planes(d, b, rs, p).0, b),
    decreases addressed_planes(b) - p,
{
    if p < addressed_planes(b) {
        let off = be32(d, 4 * p) as int;
        lemma_op5_plane_shape(d, b, p, rs, off, 0);
        lemma_op5_shape(d, b, rs, p + 1);
        if let (next, Ok(())) = op5_plane(d, b, p, rs, off, 0) {
            lemma_op5_shape(d, b, next, p + 1);
        }
    }
}

proof fn lemma_op7_column_shape(
    d: Seq<u8>,
    b: Bmhd,
    p: int,
    at: int,
    size: int,
    rs: Seq<Seq<u8>>,
    oc: int,
    dc: int,
    left: int,
    row: int,
)
    requires
        shaped(rs, b),
    ensures
        shaped(op7_column(d, b, p, at, size, rs, oc, dc, left, row).0, b),
    decreases left,
{
    if left <= 0 || oc >= d.len() {
    } else if d[oc] == 0 {
        let n = d[oc + 1] as int;
        let next = write_run(rs, b, p, at, row, items_in(d, dc, size, 0, n));
        lemma_op7_column_shape(
            d,
            b,
            p,
            at,
            size,
            next,
            oc + 2,
            dc + size,
            left - 1,
            advance(b, row, n),
        );
    } else if d[oc] < 0x80 {
        let to = advance(b, row, d[oc] as int);
        lemma_op7_column_shape(d, b, p, at, size, rs, oc + 1, dc, left - 1, to);
    } else {
        let n = d[oc] - 0x80;
        let next = write_run(rs, b, p, at, row, items_in(d, dc, size, size, n));
        lemma_op7_column_shape(
            d,
            b,
            p,
            at,
            size,
            next,
            oc + 1,
            dc + n * size,
            left - 1,
            advance(b, row, n),
        );
    }
}

proof fn lemma_op7_plane_shape(
    d: Seq<u8>,
    b: Bmhd,
    p: int,
    size: int,
    rs: Seq<Seq<u8>>,
    oc: int,
    dc: int,
    at: int,
)
    requires
        shaped(rs, b),
    ensures
        shaped(op7_plane(d, b, p, size, rs, oc, dc, at).0, b),
    decreases b.row_len() - at,
{
    if at + size <= b.row_len() && size > 0 && oc < d.len() {
        lemma_op7_column_shape(d, b, p, at, size, rs, oc + 1, dc, d[oc] as int, 0);
        if let (next, Ok((oc2, dc2))) = op7_column(
            d,
            b,
            p,
            at,
            size,
            rs,
            oc + 1,
            dc,
            d[oc] as int,
            0,
        ) {
            lemma_op7_plane_shape(d, b, p, size, next, oc2, dc2, at + size);
        }
    }
}

proof fn lemma_op7_shape(d: Seq<u8>, b: Bmhd, size: int, rs: Seq<Seq<u8>>, p: int)
    requires
        shaped(rs, b),
    ensures
        shaped(op7_planes(d, b, size, rs, p).0, b),
    decreases addressed_planes(b) - p,
{
    if p < addressed_planes(b) {
        let ops = be32(d, 4 * p) as int;
        let data = be32(d, 4 * (8 + p)) as int;
        lemma_op7_plane_shape(d, b, p, size, rs, ops, data, 0);
        lemma_op7_shape(d, b, size, rs, p + 1);
        if let (next, Ok(())) = op7_plane(d, b, p, size, rs, ops, data, 0) {
            lemma_op7_shape(d, b, size, next, p + 1);
        }
    }
}

proof fn lemma_op4_list_shape(
    d: Seq<u8>,
    b: Bmhd,
    p: int,
    opts: Op4Options,
    rs: Seq<Seq<u8>>,
    oc: int,
    dc: int,
)
    requires
        shaped(rs, b),
    ensures
        shaped(op4_list(d, b, p, opts, rs, oc, dc).0, b),
    decreases d.len() - oc,
{
    let wide = opts.long_offsets;
    let step = item_size(wide) as int;
    let size = item_size(opts.long_data) as int;
    let start = op4_field(d, wide, oc) as int;
    let n = op4_size(wide, op4_field(d, wide, oc + step));
    if oc + 2 * step <= d.len() && start != op4_end(wide) {
        let same = write_words(rs, b, p, size, start, items_in(d, dc, size, 0, -n));
        let uniq = write_words(rs, b, p, size, start, items_in(d, dc, size, size, n));
        lemma_op4_list_shape(d, b, p, opts, same, oc + 2 * step, dc + size);
        lemma_op4_list_shape(d, b, p, opts, uniq, oc + 2 * step, dc + n * size);
    }
}

proof fn lemma_op4_shape(d: Seq<u8>, b: Bmhd, opts: Op4Options, rs: Seq<Seq<u8>>, p: int)
    requires
        shaped(rs, b),
    ensures
        shaped(op4_planes(d, b, opts, rs, p).0, b),
    decreases addressed_planes(b) - p,
{
    if p < addressed_planes(b) {
        let data = 2 * be32(d, 4 * p);
        let ops = 2 * be32(d, 4 * (8 + p));
        lemma_op4_list_shape(d, b, p, opts, rs, ops, data);
        lemma_op4_shape(d, b, opts, rs, p + 1);
        if let (next, Ok(())) = op4_list(d, b, p, opts, rs, ops, data) {
            lemma_op4_shape(d, b, opts, next, p + 1);
        }
    }
}

proof fn lemma_op23_shape(d: Seq<u8>, b: Bmhd, size: int, rs: Seq<Seq<u8>>, p: int)
    requires
        shaped(rs, b),
    ensures
        shaped(op23_planes(d, b, size, rs, p).0, b),
    decreases addressed_planes(b) - p,
{
    if p < addressed_planes(b) {
        lemma_op23_shape(d, b, size, rs, p + 1);
        if let (buf, Ok(())) = op23_groups(
            d,
            size,
            plane_bytes(rs, b, p),
            be32(d, 4 * p) as int,
            0,
        ) {
            lemma_op23_shape(d, b, size, with_plane(rs, b, p, buf), p + 1);
        }
    }
}

proof fn lemma_op1_shape(d: Seq<u8>, at: int, a: Anhd, b: Bmhd, rs: Seq<Seq<u8>>, i: int)
    requires
        shaped(rs, b),
        0 <= i,
    ensures
        shaped(op1_rows(d, at, a, b, rs, i).0, b),
    decreases b.height * b.rows_per_line() - i,
{
    if i < b.height * b.rows_per_line() {
        lemma_op1_shape(d, at, a, b, rs, i + 1);
        if let Ok((row, next)) = row_stored_at(
            d,
            at,
            b,
            "ANIM op 1: uncompressed XOR BODY too short",
        ) {
            lemma_op1_shape(d, next, a, b, rs.update(i, xor_row(rs[i], row)), i + 1);
        }
    }
}

proof fn lemma_op0_shape(
    d: Seq<u8>,
    at: int,
    b: Bmhd,
    short: &'static str,
    rs: Seq<Seq<u8>>,
    i: int,
)
    requires
        shaped(rs, b),
        0 <= i,
        0 <= at,
    ensures
        shaped(rows_replaced(d, at, b, short, rs, i).0, b),
    decreases b.height * b.rows_per_line() - i,
{
    if i < b.height * b.rows_per_line() {
        lemma_unpacked(d, at, b.row_len(), Seq::empty());
        if let Ok((row, next)) = row_stored_at(d, at, b, short) {
            lemma_op0_shape(d, next, b, short, rs.update(i, row), i + 1);
        }
    }
}

/// Whatever its payload holds, a delta frame of any operation leaves a bitmap with a row
/// of the right width for every plane of every scanline.
pub proof fn law_delta_keeps_shape(a: Anhd, d: Seq<u8>, b: Bmhd, rs: Seq<Seq<u8>>)
    requires
        shaped(rs, b),
    ensures
        shaped(delta_applied(a, d, b, rs).0, b),
{
    reveal(delta_applied);
    lemma_op0_shape(d, 0, b, "ANIM op 0: short BODY", rs, 0);
    lemma_op1_shape(d, 0, a, b, rs, 0);
    lemma_op23_shape(d, b, item_size(true) as int, rs, 0);
    lemma_op23_shape(d, b, item_size(false) as int, rs, 0);
    if let Ok(opts) = op4_options(a.bits) {
        lemma_op4_shape(d, b, opts, rs, 0);
    }
    lemma_op5_shape(d, b, rs, 0);
    lemma_op7_shape(d, b, item_size(a.bits % 2 == 1) as int, rs, 0);
}

} // verus!
