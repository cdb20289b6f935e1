//! Operation 7, Short / Long Vertical Delta.
//!
//! The payload opens with sixteen big-endian pointers: eight to opcode lists,
//! one per colour plane, then eight to data lists. A zero opcode pointer leaves
//! the plane as it is. The plane is cut into columns as wide as a data item,
//! two or four bytes. A column is an op count and that many ops that walk its
//! rows from top to bottom:
//!
//! * `1..=0x7F` skips that many rows;
//! * `0, n` writes the next data item to `n` rows;
//! * `0x80..=0xFF` writes the low seven bits' number of data items, one per row.

use vstd::prelude::*;
use crate::anim::column::{
    column_changed, column_dirty, column_items, flat_items, half_done, holds_colour,
    lemma_clean_plane, lemma_column_written, lemma_dirty_step, lemma_flat_len, lemma_half_items,
    lemma_items_below, lemma_items_read, lemma_next_run, lemma_plane_done, lemma_plane_start,
    lemma_same_read, lemma_write_run_skip, next_run, plane_dirty, push_skips, skip_ops, ColumnRef,
    RunKind, RunRules,
};
use crate::anim::lists::{
    lemma_flat_total, lemma_packed, lemma_pointers_fit, list_offset, list_views, lists_len,
    pack_lists, packed,
};
use crate::anim::op5::{addressed_planes, count_addressed_planes};
use crate::bitmap::{
    advance, items_in, lemma_row_bounds, lemma_write_run_join, merged, plane_of, row_index, rows,
    shaped, step_down, write_items, write_run,
};
use crate::bytes::{be32, lemma_lies_byte, lemma_lies_split, lies_at, push_all, read_be32, viewed};
use crate::error::{IffError, Reason};
use crate::ilbm::Bmhd;

verus! {

/// Bytes per data item.
#[verifier::allow_in_spec]
pub fn item_size(long_data: bool) -> usize
    returns
        (if long_data {
            4usize
        } else {
            2usize
        }),
{
    if long_data {
        4
    } else {
        2
    }
}

/// The next `left` ops of a column, read from byte `oc` on with data from byte
/// `dc` on and the row cursor at `row`: the bitmap they leave, and where the
/// two lists go on.
pub open spec fn op7_column(
    d: Seq<u8>,
    b: Bmhd,
    p: int,
    at: int,
    size: int,
    rs: Seq<Seq<u8>>,
    oc: int,
    dc: int,
    left: int,
    row: int,
) -> (Seq<Seq<u8>>, Result<(int, int), IffError>)
    decreases left,
{
    if left <= 0 {
        (rs, Ok((oc, dc)))
    } else if oc >= d.len() {
        (rs, Err(IffError::invalid("ANIM op 7: opcode list truncated mid-column")))
    } else if d[oc] == 0 {
        if oc + 1 >= d.len() {
            (rs, Err(IffError::invalid("ANIM op 7: Same op missing count byte")))
        } else if dc + size > d.len() {
            (rs, Err(IffError::invalid("ANIM op 7: Same op data item truncated")))
        } else {
            let n = d[oc + 1] as int;
            op7_column(
                d,
                b,
                p,
                at,
                size,
                write_run(rs, b, p, at, row, items_in(d, dc, size, 0, n)),
                oc + 2,
                dc + size,
                left - 1,
                advance(b, row, n),
            )
        }
    } else if d[oc] < 0x80 {
        op7_column(d, b, p, at, size, rs, oc + 1, dc, left - 1, advance(b, row, d[oc] as int))
    } else {
        let n = d[oc] - 0x80;
        if dc + n * size > d.len() {
            (rs, Err(IffError::invalid("ANIM op 7: Uniq op data items truncated")))
        } else {
            op7_column(
                d,
                b,
                p,
                at,
                size,
                write_run(rs, b, p, at, row, items_in(d, dc, size, size, n)),
                oc + 1,
                dc + n * size,
                left - 1,
                advance(b, row, n),
            )
        }
    }
}

/// The columns of a plane from byte `at` of a row on.
pub open spec fn op7_plane(
    d: Seq<u8>,
    b: Bmhd,
    p: int,
    size: int,
    rs: Seq<Seq<u8>>,
    oc: int,
    dc: int,
    at: int,
) -> (Seq<Seq<u8>>, Result<(), IffError>)
    decreases b.row_len() - at,
{
    if at + size > b.row_len() || size <= 0 {
        (rs, Ok(()))
    } else if oc >= d.len() {
        (rs, Err(IffError::invalid("ANIM op 7: opcode list truncated at op_count")))
    } else {
        match op7_column(d, b, p, at, size, rs, oc + 1, dc, d[oc] as int, 0) {
            (next, Ok((oc2, dc2))) => op7_plane(d, b, p, size, next, oc2, dc2, at + size),
            (next, Err(e)) => (next, Err(e)),
        }
    }
}

/// The planes from `p` on.
pub open spec fn op7_planes(d: Seq<u8>, b: Bmhd, size: int, rs: Seq<Seq<u8>>, p: int) -> (
    Seq<Seq<u8>>,
    Result<(), IffError>,
)
    decreases addressed_planes(b) - p,
{
    if p >= addressed_planes(b) {
        (rs, Ok(()))
    } else if be32(d, 4 * p) == 0 {
        op7_planes(d, b, size, rs, p + 1)
    } else if be32(d, 4 * p) >= d.len() {
        (rs, Err(IffError::invalid("ANIM op 7: opcode pointer out of range")))
    } else if be32(d, 4 * (8 + p)) >= d.len() {
        (rs, Err(IffError::invalid("ANIM op 7: data pointer out of range")))
    } else {
        match op7_plane(
            d,
            b,
            p,
            size,
            rs,
            be32(d, 4 * p) as int,
            be32(d, 4 * (8 + p)) as int,
            0,
        ) {
            (next, Ok(())) => op7_planes(d, b, size, next, p + 1),
            (next, Err(e)) => (next, Err(e)),
        }
    }
}

/// What an operation-7 payload makes of a bitmap. A malformed payload leaves
/// the bitmap as far as the ops before the fault have changed it.
pub open spec fn op7_applied(d: Seq<u8>, b: Bmhd, rs: Seq<Seq<u8>>, long_data: bool) -> (
    Seq<Seq<u8>>,
    Result<(), IffError>,
) {
    let size = item_size(long_data);
    if b.row_len() % size as int != 0 {
        (
            rs,
            Err(
                IffError::Invalid(
                    Reason::RowWidth {
                        op: "7",
                        row_bytes: b.row_len() as usize,
                        unit: "data size",
                        size: size,
                    },
                ),
            ),
        )
    } else if d.len() < 64 {
        (rs, Err(IffError::invalid("ANIM op 7: pointer table truncated")))
    } else {
        op7_planes(d, b, size as int, rs, 0)
    }
}

#[verifier::loop_isolation(false)]
fn apply_op7_column(
    planar: &mut [Vec<u8>],
    delta: &[u8],
    bmhd: &Bmhd,
    p: usize,
    at: usize,
    size: usize,
    op_from: usize,
    data_from: usize,
    count: usize,
) -> (r: Result<(usize, usize), IffError>)
    requires
        p < bmhd.n_planes,
        at + size <= 0x2000,
        1 <= size <= 4,
        count <= 0xFF,
        data_from <= delta@.len(),
        op_from <= delta@.len(),
    ensures
        match r {
            Ok((oc, dc)) => oc <= delta@.len() && dc <= delta@.len() && op7_column(
                delta@,
                *bmhd,
                p as int,
                at as int,
                size as int,
                rows(old(planar)@),
                op_from as int,
                data_from as int,
                count as int,
                0,
            ) == (rows(final(planar)@), Ok::<(int, int), IffError>((oc as int, dc as int))),
            Err(e) => op7_column(
                delta@,
                *bmhd,
                p as int,
                at as int,
                size as int,
                rows(old(planar)@),
                op_from as int,
                data_from as int,
                count as int,
                0,
            ) == (rows(final(planar)@), Err::<(int, int), IffError>(e)),
        },
{
    let ghost target = op7_column(
        delta@,
        *bmhd,
        p as int,
        at as int,
        size as int,
        rows(planar@),
        op_from as int,
        data_from as int,
        count as int,
        0,
    );
    let total: usize = delta.len();
    let mut oc: usize = op_from;
    let mut dc: usize = data_from;
    let mut left: usize = count;
    let mut row: usize = 0;
    while left > 0
        invariant
            row <= bmhd.height,
            oc <= total,
            dc <= total,
            left <= count,
            op7_column(
                delta@,
                *bmhd,
                p as int,
                at as int,
                size as int,
                rows(planar@),
                oc as int,
                dc as int,
                left as int,
                row as int,
            ) == target,
        decreases left,
    {
        if oc >= total {
            return Err(IffError::invalid("ANIM op 7: opcode list truncated mid-column"));
        }
        let op: u8 = delta[oc];
        if op == 0 {
            if oc + 1 >= total {
                return Err(IffError::invalid("ANIM op 7: Same op missing count byte"));
            }
            let n: usize = delta[oc + 1] as usize;
            if total - dc < size {
                return Err(IffError::invalid("ANIM op 7: Same op data item truncated"));
            }
            write_items(planar, bmhd, p, at, row, delta, dc, size, 0, n);
            row = step_down(bmhd, row, n);
            oc += 2;
            dc += size;
        } else if op < 0x80 {
            row = step_down(bmhd, row, op as usize);
            oc += 1;
        } else {
            let n: usize = (op - 0x80) as usize;
            assert(n * size <= 0x7F * 4) by (nonlinear_arith)
                requires
                    n <= 0x7F,
                    size <= 4,
            ;
            if total - dc < n * size {
                return Err(IffError::invalid("ANIM op 7: Uniq op data items truncated"));
            }
            assert(n == 0 || size <= n * size) by (nonlinear_arith)
                requires
                    0 <= n,
                    0 <= size,
            ;
            write_items(planar, bmhd, p, at, row, delta, dc, size, size, n);
            row = step_down(bmhd, row, n);
            oc += 1;
            dc += n * size;
        }
        left -= 1;
    }
    Ok((oc, dc))
}

/// Applies an operation-7 payload to a bitmap.
#[verifier::loop_isolation(false)]
pub fn apply_op7(planar: &mut [Vec<u8>], delta: &[u8], bmhd: &Bmhd, long_data: bool) -> (r: Result<
    (),
    IffError,
>)
    ensures
        (rows(final(planar)@), r) == op7_applied(delta@, *bmhd, rows(old(planar)@), long_data),
{
    let size: usize = item_size(long_data);
    let row_bytes: usize = bmhd.row_bytes();
    if row_bytes % size != 0 {
        return Err(
            IffError::Invalid(
                Reason::RowWidth { op: "7", row_bytes: row_bytes, unit: "data size", size: size },
            ),
        );
    }
    if delta.len() < 64 {
        return Err(IffError::invalid("ANIM op 7: pointer table truncated"));
    }
    let ghost target = op7_planes(delta@, *bmhd, size as int, rows(planar@), 0);
    let total: usize = delta.len();
    let n_planes: usize = count_addressed_planes(bmhd);
    let mut p: usize = 0;
    while p < n_planes
        invariant
            p <= n_planes,
            op7_planes(delta@, *bmhd, size as int, rows(planar@), p as int) == target,
        decreases n_planes - p,
    {
        let op_ptr: usize = read_be32(delta, 4 * p) as usize;
        let data_ptr: usize = read_be32(delta, 4 * (8 + p)) as usize;
        if op_ptr != 0 {
            if op_ptr >= total {
                return Err(IffError::invalid("ANIM op 7: opcode pointer out of range"));
            }
            if data_ptr >= total {
                return Err(IffError::invalid("ANIM op 7: data pointer out of range"));
            }
            let ghost plane = op7_plane(
                delta@,
                *bmhd,
                p as int,
                size as int,
                rows(planar@),
                op_ptr as int,
                data_ptr as int,
                0,
            );
            let mut oc: usize = op_ptr;
            let mut dc: usize = data_ptr;
            let mut at: usize = 0;
            while at < row_bytes
                invariant
                    at <= row_bytes,
                    at % size == 0,
                    oc <= total,
                    dc <= total,
                    op7_plane(
                        delta@,
                        *bmhd,
                        p as int,
                        size as int,
                        rows(planar@),
                        oc as int,
                        dc as int,
                        at as int,
                    ) == plane,
                    plane.1 is Err ==> target == plane,
                decreases row_bytes - at,
            {
                if oc >= total {
                    return Err(IffError::invalid("ANIM op 7: opcode list truncated at op_count"));
                }
                let count: usize = delta[oc] as usize;
                assert(at + size <= row_bytes && (at + size) % size as int == 0) by {
                    assert(size == 2 || size == 4);
                }
                match apply_op7_column(planar, delta, bmhd, p, at, size, oc + 1, dc, count) {
                    Ok((oc2, dc2)) => {
                        oc = oc2;
                        dc = dc2;
                    },
                    Err(e) => {
                        return Err(e);
                    },
                }
                at += size;
            }
        }
        p += 1;
    }
    Ok(())
}

/// Repeats from two equal items on, counts that fit the op bytes.
#[verifier::allow_in_spec]
pub fn op7_rules() -> RunRules
    returns
        (RunRules { same_min: 2, same_max: 0xFF, uniq_max: 0x7F }),
{
    RunRules { same_min: 2, same_max: 0xFF, uniq_max: 0x7F }
}

/// The op bytes of one run.
pub open spec fn op7_run_ops(kind: RunKind, n: int) -> Seq<u8> {
    match kind {
        RunKind::Skip => skip_ops(n),
        RunKind::Same => seq![0u8, n as u8],
        RunKind::Uniq => seq![(0x80 + n) as u8],
    }
}

/// The data items of one run.
pub open spec fn op7_run_data(items: Seq<Seq<u8>>, kind: RunKind, i: int, end: int) -> Seq<u8> {
    match kind {
        RunKind::Skip => Seq::empty(),
        RunKind::Same => items[i],
        RunKind::Uniq => flat_items(items, i, end),
    }
}

/// How many ops one run takes.
pub open spec fn op7_run_count(kind: RunKind, n: int) -> int {
    match kind {
        RunKind::Skip => skip_ops(n).len() as int,
        RunKind::Same => 1,
        RunKind::Uniq => 1,
    }
}

/// The op bytes of a column from row `i` on.
pub open spec fn op7_ops(ch: Seq<bool>, items: Seq<Seq<u8>>, i: int) -> Seq<u8>
    decreases ch.len() - i,
{
    if 0 <= i < ch.len() {
        proof {
            lemma_next_run(ch, items, op7_rules(), i);
        }
        let (kind, end) = next_run(ch, items, op7_rules(), i);
        op7_run_ops(kind, end - i) + op7_ops(ch, items, end)
    } else {
        Seq::empty()
    }
}

/// The data items of a column from row `i` on.
pub open spec fn op7_data(ch: Seq<bool>, items: Seq<Seq<u8>>, i: int) -> Seq<u8>
    decreases ch.len() - i,
{
    if 0 <= i < ch.len() {
        proof {
            lemma_next_run(ch, items, op7_rules(), i);
        }
        let (kind, end) = next_run(ch, items, op7_rules(), i);
        op7_run_data(items, kind, i, end) + op7_data(ch, items, end)
    } else {
        Seq::empty()
    }
}

/// How many ops a column takes from row `i` on.
pub open spec fn op7_count(ch: Seq<bool>, items: Seq<Seq<u8>>, i: int) -> int
    decreases ch.len() - i,
{
    if 0 <= i < ch.len() {
        proof {
            lemma_next_run(ch, items, op7_rules(), i);
        }
        let (kind, end) = next_run(ch, items, op7_rules(), i);
        op7_run_count(kind, end - i) + op7_count(ch, items, end)
    } else {
        0
    }
}

/// How many ops the column at byte `at` of plane `p` takes.
pub open spec fn op7_column_count(
    prev: Seq<Seq<u8>>,
    cur: Seq<Seq<u8>>,
    b: Bmhd,
    p: int,
    at: int,
    size: int,
) -> int {
    op7_count(
        column_changed(prev, cur, b, p, at, size),
        column_items(cur, b, p, at, size),
        0,
    )
}

/// The opcode list of a plane from byte `at` of a row on.
pub open spec fn op7_op_columns(
    prev: Seq<Seq<u8>>,
    cur: Seq<Seq<u8>>,
    b: Bmhd,
    p: int,
    size: int,
    at: int,
) -> Seq<u8>
    decreases b.row_len() - at,
{
    if at + size <= b.row_len() && size > 0 {
        seq![op7_column_count(prev, cur, b, p, at, size) as u8] + op7_ops(
            column_changed(prev, cur, b, p, at, size),
            column_items(cur, b, p, at, size),
            0,
        ) + op7_op_columns(prev, cur, b, p, size, at + size)
    } else {
        Seq::empty()
    }
}

/// The data list of a plane from byte `at` of a row on.
pub open spec fn op7_data_columns(
    prev: Seq<Seq<u8>>,
    cur: Seq<Seq<u8>>,
    b: Bmhd,
    p: int,
    size: int,
    at: int,
) -> Seq<u8>
    decreases b.row_len() - at,
{
    if at + size <= b.row_len() && size > 0 {
        op7_data(
            column_changed(prev, cur, b, p, at, size),
            column_items(cur, b, p, at, size),
            0,
        ) + op7_data_columns(prev, cur, b, p, size, at + size)
    } else {
        Seq::empty()
    }
}

/// The lists behind the pointer table: the opcode lists of the eight planes,
/// then their data lists. Lists of unchanged planes are empty.
pub open spec fn op7_lists(prev: Seq<Seq<u8>>, cur: Seq<Seq<u8>>, b: Bmhd, size: int) -> Seq<
    Seq<u8>,
> {
    Seq::new(
        16,
        |s: int|
            {
                let p = if s < 8 {
                    s
                } else {
                    s - 8
                };
                if p >= b.n_planes || !plane_dirty(prev, cur, b, p, size) {
                    Seq::empty()
                } else if s < 8 {
                    op7_op_columns(prev, cur, b, p, size, 0)
                } else {
                    op7_data_columns(prev, cur, b, p, size, 0)
                }
            },
    )
}

/// The operation-7 payload that turns `prev` into `cur`.
pub open spec fn op7_body(prev: Seq<Seq<u8>>, cur: Seq<Seq<u8>>, b: Bmhd, size: int) -> Seq<u8> {
    packed(op7_lists(prev, cur, b, size), 1, false)
}

/// Whether the op counts of all columns before column `at` of plane `p` fit a byte.
pub open spec fn op7_counts_fit(
    prev: Seq<Seq<u8>>,
    cur: Seq<Seq<u8>>,
    b: Bmhd,
    size: int,
    p: int,
    at: int,
) -> bool {
    forall|q: int, a: int|
        0 <= q < b.n_planes && 0 <= a && a + size <= b.row_len() && a % size == 0 && (q < p || q
            == p && a < at) ==> #[trigger] op7_column_count(prev, cur, b, q, a, size) <= 0xFF
}

/// Appends the op bytes and data items of a column; the result says how many
/// ops there are and whether the column has changed.
fn encode_op7_column(ops: &mut Vec<u8>, data: &mut Vec<u8>, column: &ColumnRef) -> (r: (usize, bool))
    requires
        column.valid(),
    ensures
        final(ops)@ == old(ops)@ + op7_ops(column.changed(), column.items(), 0),
        final(data)@ == old(data)@ + op7_data(column.changed(), column.items(), 0),
        r.0 == op7_count(column.changed(), column.items(), 0),
        r.1 == column_dirty(column.changed()),
{
    let height: usize = column.bmhd.height as usize;
    let rules: RunRules = op7_rules();
    let ghost ops0 = ops@;
    let ghost data0 = data@;
    let ghost ch = column.changed();
    let ghost items = column.items();
    let mut count: usize = 0;
    let mut dirty: bool = false;
    let mut i: usize = 0;
    assert(ops@ + op7_ops(ch, items, 0) =~= ops0 + op7_ops(ch, items, 0));
    assert(data@ + op7_data(ch, items, 0) =~= data0 + op7_data(ch, items, 0));
    while i < height
        invariant
            column.valid(),
            height == column.bmhd.height,
            rules == op7_rules(),
            ch == column.changed(),
            items == column.items(),
            ch.len() == height,
            i <= height,
            count <= i,
            ops@ + op7_ops(ch, items, i as int) == ops0 + op7_ops(ch, items, 0),
            data@ + op7_data(ch, items, i as int) == data0 + op7_data(ch, items, 0),
            count + op7_count(ch, items, i as int) == op7_count(ch, items, 0),
            dirty == exists|y: int| 0 <= y < i && ch[y],
        decreases height - i,
    {
        let ghost ops1 = ops@;
        let ghost data1 = data@;
        proof {
            lemma_next_run(ch, items, rules, i as int);
        }
        let (kind, end) = column.find_run(&rules, i);
        match kind {
            RunKind::Skip => {
                let n: usize = push_skips(ops, end - i);
                count += n;
            },
            RunKind::Same => {
                ops.push(0);
                ops.push((end - i) as u8);
                column.push_item(data, i);
                count += 1;
                dirty = true;
                assert(ch[i as int]);
            },
            RunKind::Uniq => {
                ops.push((0x80 + (end - i)) as u8);
                column.push_items(data, i, end);
                count += 1;
                dirty = true;
                assert(ch[i as int]);
            },
        }
        proof {
            assert(ops@ =~= ops1 + op7_run_ops(kind, end - i));
            assert(data@ =~= data1 + op7_run_data(items, kind, i as int, end as int));
            assert(ops@ + op7_ops(ch, items, end as int) =~= ops1 + op7_ops(ch, items, i as int));
            assert(data@ + op7_data(ch, items, end as int) =~= data1 + op7_data(
                ch,
                items,
                i as int,
            ));
        }
        i = end;
    }
    assert(ops@ =~= ops0 + op7_ops(ch, items, 0));
    assert(data@ =~= data0 + op7_data(ch, items, 0));
    (count, dirty)
}

/// The first column whose ops do not fit its count byte.
pub open spec fn op7_overfull(
    prev: Seq<Seq<u8>>,
    cur: Seq<Seq<u8>>,
    b: Bmhd,
    size: int,
    plane: usize,
    column: usize,
) -> bool {
    &&& plane < b.n_planes
    &&& column < b.row_len() / size
    &&& op7_counts_fit(prev, cur, b, size, plane as int, column * size)
    &&& op7_column_count(prev, cur, b, plane as int, column * size, size) > 0xFF
}

/// The fault of the first column whose ops do not fit its count byte.
pub open spec fn op7_fault(prev: Seq<Seq<u8>>, cur: Seq<Seq<u8>>, b: Bmhd, size: int) -> IffError {
    let (plane, column) = choose|plane: usize, column: usize|
        op7_overfull(prev, cur, b, size, plane, column);
    IffError::Unsupported(
        Reason::TooManyOps {
            column: column,
            plane: plane,
            ops: op7_column_count(prev, cur, b, plane as int, column * size, size) as usize,
        },
    )
}

/// There is only one first column.
proof fn lemma_op7_fault(
    prev: Seq<Seq<u8>>,
    cur: Seq<Seq<u8>>,
    b: Bmhd,
    size: int,
    plane: usize,
    column: usize,
)
    requires
        size == 2 || size == 4,
        op7_overfull(prev, cur, b, size, plane, column),
    ensures
        !op7_counts_fit(prev, cur, b, size, 8, 0) || b.n_planes > 8,
        op7_fault(prev, cur, b, size) == IffError::Unsupported(
            Reason::TooManyOps {
                column: column,
                plane: plane,
                ops: op7_column_count(prev, cur, b, plane as int, column * size, size) as usize,
            },
        ),
{
    let (p, c) = choose|p: usize, c: usize| op7_overfull(prev, cur, b, size, p, c);
    assert(op7_overfull(prev, cur, b, size, p, c));
    let n0 = op7_column_count(prev, cur, b, plane as int, column * size, size);
    let n1 = op7_column_count(prev, cur, b, p as int, c * size, size);
    assert((column * size) % size == 0 && (c * size) % size == 0 && column * size + size
        <= b.row_len() && c * size + size <= b.row_len() && (column * size < c * size || column
        == c || c * size < column * size)) by {
        if size == 2 {
        } else {
        }
    }
}

/// What encoding the step from one bitmap to the next gives: the payload, or a fault of
/// the bitmaps' shape, or that of a column with too many ops.
pub open spec fn op7_encoded(
    prev: Seq<Seq<u8>>,
    cur: Seq<Seq<u8>>,
    b: Bmhd,
    long_data: bool,
) -> Result<Seq<u8>, IffError> {
    let size = item_size(long_data);
    let count = b.height * b.rows_per_line();
    if prev.len() != count || cur.len() != count {
        Err(
            IffError::Invalid(
                Reason::RowCount {
                    op: "7",
                    prev: prev.len() as usize,
                    cur: cur.len() as usize,
                    expected: count as usize,
                },
            ),
        )
    } else if b.n_planes > 8 {
        Err(IffError::Unsupported(Reason::TooManyPlanes { op: "7", planes: b.n_planes }))
    } else if b.row_len() % size as int != 0 {
        Err(
            IffError::Invalid(
                Reason::RowWidth {
                    op: "7 encode",
                    row_bytes: b.row_len() as usize,
                    unit: "data size",
                    size: size,
                },
            ),
        )
    } else if !op7_counts_fit(prev, cur, b, size as int, 8, 0) {
        Err(op7_fault(prev, cur, b, size as int))
    } else {
        Ok(op7_body(prev, cur, b, size as int))
    }
}

/// Encodes one plane: its opcode list and its data list, both empty where nothing has
/// changed.
#[verifier::spinoff_prover]
#[verifier::rlimit(30)]
fn encode_op7_plane(
    prev_planar: &[Vec<u8>],
    cur_planar: &[Vec<u8>],
    bmhd: &Bmhd,
    p: usize,
    size: usize,
) -> (r: Result<(Vec<u8>, Vec<u8>), IffError>)
    requires
        prev_planar@.len() == bmhd.height * bmhd.rows_per_line(),
        cur_planar@.len() == bmhd.height * bmhd.rows_per_line(),
        holds_colour(rows(cur_planar@), *bmhd),
        p < bmhd.n_planes <= 8,
        size == 2 || size == 4,
        bmhd.row_len() % size as int == 0,
        op7_counts_fit(
            rows(prev_planar@),
            rows(cur_planar@),
            *bmhd,
            size as int,
            p as int,
            0,
        ),
    ensures
        ({
            let prev = rows(prev_planar@);
            let cur = rows(cur_planar@);
            let lists = op7_lists(prev, cur, *bmhd, size as int);
            match r {
                Ok((ops, data)) => ops@ == lists[p as int] && data@ == lists[p + 8]
                    && op7_counts_fit(prev, cur, *bmhd, size as int, p + 1, 0),
                Err(e) => !op7_counts_fit(prev, cur, *bmhd, size as int, 8, 0) && e == op7_fault(
                    prev,
                    cur,
                    *bmhd,
                    size as int,
                ),
            }
        }),
{
    let row_bytes: usize = bmhd.row_bytes();
    let ghost prev = rows(prev_planar@);
    let ghost cur = rows(cur_planar@);
    let ghost sz = size as int;
    let ghost b = *bmhd;
    let ghost pi = p as int;
    let ghost all_ops = op7_op_columns(prev, cur, b, pi, sz, 0);
    let ghost all_data = op7_data_columns(prev, cur, b, pi, sz, 0);
    let mut op_list: Vec<u8> = Vec::new();
    let mut data_list: Vec<u8> = Vec::new();
    let mut dirty: bool = false;
    let mut at: usize = 0;
    let mut col: usize = 0;
    assert(op_list@ + all_ops =~= all_ops);
    assert(data_list@ + all_data =~= all_data);
    while at < row_bytes
        invariant
            prev_planar@.len() == bmhd.height * bmhd.rows_per_line(),
            cur_planar@.len() == bmhd.height * bmhd.rows_per_line(),
            holds_colour(rows(cur_planar@), *bmhd),
            prev == rows(prev_planar@),
            cur == rows(cur_planar@),
            b == *bmhd,
            row_bytes == b.row_len(),
            row_bytes <= 0x2000,
            p < bmhd.n_planes <= 8,
            pi == p,
            sz == size,
            size == 2 || size == 4,
            row_bytes % size == 0,
            at <= row_bytes,
            at % size == 0,
            at == col * size,
            col <= at,
            op_list@ + op7_op_columns(prev, cur, b, pi, sz, at as int) == all_ops,
            data_list@ + op7_data_columns(prev, cur, b, pi, sz, at as int) == all_data,
            op7_counts_fit(prev, cur, b, sz, pi, at as int),
            dirty == exists|a: int|
                0 <= a < at && a % sz == 0 && column_dirty(
                    #[trigger] column_changed(prev, cur, b, pi, a, sz),
                ),
        decreases row_bytes - at,
    {
        assert(at + size <= row_bytes && (at + size) % size as int == 0);
        assert((col + 1) * size == col * size + size) by (nonlinear_arith);
        let column = ColumnRef {
            prev: prev_planar,
            cur: cur_planar,
            bmhd: *bmhd,
            plane: p,
            at: at,
            size: size,
        };
        let ghost ops0 = op_list@;
        let ghost data0 = data_list@;
        let mut ops: Vec<u8> = Vec::new();
        let (count, changed) = encode_op7_column(&mut ops, &mut data_list, &column);
        let ghost ch = column_changed(prev, cur, b, pi, at as int, sz);
        let ghost items = column_items(cur, b, pi, at as int, sz);
        assert(column.changed() == ch);
        assert(column.items() == items);
        assert(ops@ =~= op7_ops(ch, items, 0));
        assert(count == op7_column_count(prev, cur, b, pi, at as int, sz));
        if count > 0xFF {
            assert(col < b.row_len() / sz);
            proof {
                lemma_op7_fault(prev, cur, b, sz, p, col);
            }
            return Err(
                IffError::Unsupported(Reason::TooManyOps { column: col, plane: p, ops: count }),
            );
        }
        op_list.push(count as u8);
        push_all(&mut op_list, ops.as_slice());
        proof {
            assert(op_list@ =~= ops0 + (seq![count as u8] + op7_ops(ch, items, 0)));
            assert(op_list@ + op7_op_columns(prev, cur, b, pi, sz, at + sz) =~= ops0
                + op7_op_columns(prev, cur, b, pi, sz, at as int));
            assert(data_list@ + op7_data_columns(prev, cur, b, pi, sz, at + sz) =~= data0
                + op7_data_columns(prev, cur, b, pi, sz, at as int));
            lemma_counts_step(prev, cur, b, sz, pi, at as int);
            lemma_dirty_step(prev, cur, b, pi, sz, at as int);
        }
        dirty = dirty || changed;
        at += size;
        col += 1;
    }
    assert(op_list@ =~= all_ops);
    assert(data_list@ =~= all_data);
    assert(dirty == plane_dirty(prev, cur, b, pi, sz)) by {
        if plane_dirty(prev, cur, b, pi, sz) {
            let a = choose|a: int|
                0 <= a && a + sz <= b.row_len() && a % sz == 0 && column_dirty(
                    #[trigger] column_changed(prev, cur, b, pi, a, sz),
                );
            assert(0 <= a < at);
        }
        if dirty {
            let a = choose|a: int|
                0 <= a < at && a % sz == 0 && column_dirty(
                    #[trigger] column_changed(prev, cur, b, pi, a, sz),
                );
            assert(a + sz <= b.row_len());
        }
    }
    assert(op7_counts_fit(prev, cur, b, sz, pi + 1, 0));
    if !dirty {
        op_list = Vec::new();
        data_list = Vec::new();
    }
    Ok((op_list, data_list))
}

/// The op counts before the next column fit, where this column's count does.
proof fn lemma_counts_step(
    prev: Seq<Seq<u8>>,
    cur: Seq<Seq<u8>>,
    b: Bmhd,
    size: int,
    p: int,
    at: int,
)
    requires
        size == 2 || size == 4,
        at % size == 0,
        op7_counts_fit(prev, cur, b, size, p, at),
        op7_column_count(prev, cur, b, p, at, size) <= 0xFF,
    ensures
        op7_counts_fit(prev, cur, b, size, p, at + size),
{
    assert forall|q: int, a: int|
        0 <= q < b.n_planes && 0 <= a && a + size <= b.row_len() && a % size == 0 && (q < p || q
            == p && a < at + size) implies #[trigger] op7_column_count(
        prev,
        cur,
        b,
        q,
        a,
        size,
    ) <= 0xFF by {
        if q == p && a >= at {
            assert(a == at);
        }
    }
}

/// Encodes the payload that turns one bitmap into the next.
#[verifier::loop_isolation(false)]
pub fn encode_op7_body(
    prev_planar: &[Vec<u8>],
    cur_planar: &[Vec<u8>],
    bmhd: &Bmhd,
    long_data: bool,
) -> (r: Result<Vec<u8>, IffError>)
    requires
        prev_planar@.len() == bmhd.height * bmhd.rows_per_line() && cur_planar@.len()
            == bmhd.height * bmhd.rows_per_line() && bmhd.n_planes <= 8 && bmhd.row_len()
            % item_size(long_data) as int == 0 ==> holds_colour(rows(cur_planar@), *bmhd),
    ensures
        viewed(r) == op7_encoded(rows(prev_planar@), rows(cur_planar@), *bmhd, long_data),
{
    let row_bytes: usize = bmhd.row_bytes();
    let expected: usize = bmhd.row_count();
    let size: usize = item_size(long_data);
    if prev_planar.len() != expected || cur_planar.len() != expected {
        return Err(
            IffError::Invalid(
                Reason::RowCount {
                    op: "7",
                    prev: prev_planar.len(),
                    cur: cur_planar.len(),
                    expected: expected,
                },
            ),
        );
    }
    if bmhd.n_planes > 8 {
        return Err(
            IffError::Unsupported(Reason::TooManyPlanes { op: "7", planes: bmhd.n_planes }),
        );
    }
    if row_bytes % size != 0 {
        return Err(
            IffError::Invalid(
                Reason::RowWidth {
                    op: "7 encode",
                    row_bytes: row_bytes,
                    unit: "data size",
                    size: size,
                },
            ),
        );
    }
    let ghost prev = rows(prev_planar@);
    let ghost cur = rows(cur_planar@);
    let ghost sz = size as int;
    let n_planes: usize = bmhd.n_planes as usize;
    let mut op_lists: Vec<Vec<u8>> = Vec::new();
    let mut data_lists: Vec<Vec<u8>> = Vec::new();
    let mut p: usize = 0;
    let ghost all = op7_lists(prev, cur, *bmhd, sz);
    while p < 8
        invariant
            p <= 8,
            op_lists@.len() == p,
            data_lists@.len() == p,
            forall|s: int| 0 <= s < p ==> #[trigger] op_lists@[s]@ == all[s],
            forall|s: int| 0 <= s < p ==> #[trigger] data_lists@[s]@ == all[s + 8],
            op7_counts_fit(prev, cur, *bmhd, sz, p as int, 0),
        decreases 8 - p,
    {
        let (op_list, data_list) = if p < n_planes {
            match encode_op7_plane(prev_planar, cur_planar, bmhd, p, size) {
                Ok(lists) => lists,
                Err(e) => {
                    return Err(e);
                },
            }
        } else {
            (Vec::new(), Vec::new())
        };
        assert(op_list@ =~= all[p as int]);
        assert(data_list@ =~= all[p + 8]);
        op_lists.push(op_list);
        data_lists.push(data_list);
        p += 1;
    }
    op_lists.append(&mut data_lists);
    assert(list_views(op_lists@) =~= all);
    Ok(pack_lists(&op_lists, 1, false))
}

proof fn lemma_skips(
    d: Seq<u8>,
    b: Bmhd,
    p: int,
    at: int,
    size: int,
    rs: Seq<Seq<u8>>,
    oc: int,
    dc: int,
    left: int,
    row: int,
    n: int,
)
    requires
        0 <= n,
        0 <= row,
        row + n <= b.height,
        skip_ops(n).len() <= left,
        lies_at(d, oc, skip_ops(n)),
    ensures
        op7_column(d, b, p, at, size, rs, oc, dc, left, row) == op7_column(
            d,
            b,
            p,
            at,
            size,
            rs,
            oc + skip_ops(n).len(),
            dc,
            left - skip_ops(n).len(),
            row + n,
        ),
    decreases n,
{
    let ops = skip_ops(n);
    if n > 0 {
        let step = if n > 0x7F {
            0x7F
        } else {
            n
        };
        let rest = skip_ops(n - step);
        assert(ops =~= seq![step as u8] + rest);
        lemma_lies_byte(d, oc, ops, 0);
        lemma_lies_split(d, oc, seq![step as u8], rest);
        lemma_skips(d, b, p, at, size, rs, oc + 1, dc, left - 1, row + step, n - step);
    }
}

proof fn lemma_count(ch: Seq<bool>, items: Seq<Seq<u8>>, i: int)
    requires
        0 <= i <= ch.len(),
    ensures
        0 <= op7_count(ch, items, i),
    decreases ch.len() - i,
{
    if i < ch.len() {
        lemma_next_run(ch, items, op7_rules(), i);
        lemma_count(ch, items, next_run(ch, items, op7_rules(), i).1);
    }
}

/// The state of a column that is about to be read back from `row` on.
spec fn ready(
    d: Seq<u8>,
    b: Bmhd,
    p: int,
    at: int,
    size: int,
    rs: Seq<Seq<u8>>,
    prev: Seq<Seq<u8>>,
    cur: Seq<Seq<u8>>,
    oc: int,
    dc: int,
    row: int,
    from: int,
) -> bool {
    let ch = column_changed(prev, cur, b, p, at, size);
    let items = column_items(cur, b, p, at, size);
    &&& shaped(prev, b)
    &&& shaped(cur, b)
    &&& rs.len() == b.height * b.rows_per_line()
    &&& 0 <= p < b.rows_per_line()
    &&& 0 <= at
    &&& 0 < size
    &&& at + size <= b.row_len()
    &&& 0 <= row <= b.height
    &&& 0 <= from <= b.height
    &&& forall|y: int|
        row <= y < b.height ==> #[trigger] column_items(rs, b, p, at, size)[y] == column_items(
            prev,
            b,
            p,
            at,
            size,
        )[y]
    &&& lies_at(d, oc, op7_ops(ch, items, from))
    &&& lies_at(d, dc, op7_data(ch, items, from))
}

/// Reading back the ops of a column writes its items.
proof fn lemma_op7_column(
    d: Seq<u8>,
    b: Bmhd,
    p: int,
    at: int,
    size: int,
    rs: Seq<Seq<u8>>,
    prev: Seq<Seq<u8>>,
    cur: Seq<Seq<u8>>,
    oc: int,
    dc: int,
    row: int,
)
    requires
        ready(d, b, p, at, size, rs, prev, cur, oc, dc, row, row),
    ensures
        ({
            let ch = column_changed(prev, cur, b, p, at, size);
            let items = column_items(cur, b, p, at, size);
            op7_column(
                d,
                b,
                p,
                at,
                size,
                rs,
                oc,
                dc,
                op7_count(ch, items, row),
                row,
            ) == (
                write_run(rs, b, p, at, row, items.subrange(row, b.height as int)),
                Ok::<(int, int), IffError>(
                    (
                        oc + op7_ops(ch, items, row).len(),
                        dc + op7_data(ch, items, row).len(),
                    ),
                ),
            )
        }),
    decreases b.height - row, 1int,
{
    let h = b.height as int;
    let ch = column_changed(prev, cur, b, p, at, size);
    let items = column_items(cur, b, p, at, size);
    assert forall|k: int| 0 <= k < items.len() implies (#[trigger] items[k]).len() == size by {
        lemma_row_bounds(b, k, p);
        assert(cur[row_index(b, k, p)].len() == b.row_len());
    }
    if row < h {
        lemma_next_run(ch, items, op7_rules(), row);
        let (kind, end) = next_run(ch, items, op7_rules(), row);
        let n = end - row;
        let ops = op7_run_ops(kind, n);
        let data = op7_run_data(items, kind, row, end);
        let left = op7_count(ch, items, row);
        lemma_lies_split(d, oc, ops, op7_ops(ch, items, end));
        lemma_lies_split(d, dc, data, op7_data(ch, items, end));
        lemma_count(ch, items, end);
        let oc2 = oc + ops.len();
        let dc2 = dc + data.len();
        match kind {
            RunKind::Skip => {
                lemma_skips(d, b, p, at, size, rs, oc, dc, left, row, n);
                assert forall|y: int| row <= y < end implies #[trigger] column_items(
                    rs,
                    b,
                    p,
                    at,
                    size,
                )[y] == items[y] by {
                    assert(!ch[y]);
                    lemma_row_bounds(b, y, p);
                    assert(prev[row_index(b, y, p)].len() == b.row_len());
                }
                lemma_op7_column(d, b, p, at, size, rs, prev, cur, oc2, dc2, end);
                lemma_write_run_skip(rs, b, p, at, size, row, end, items);
            },
            RunKind::Same => {
                lemma_lies_byte(d, oc, ops, 0);
                lemma_lies_byte(d, oc, ops, 1);
                lemma_same_read(d, dc, items, row, end, size);
                lemma_op7_rest(d, b, p, at, size, rs, prev, cur, oc2, dc2, row, end);
                lemma_write_run_join(rs, b, p, at, size, row, end, h, items);
            },
            RunKind::Uniq => {
                lemma_lies_byte(d, oc, ops, 0);
                lemma_items_read(d, dc, items, row, end, size);
                lemma_op7_rest(d, b, p, at, size, rs, prev, cur, oc2, dc2, row, end);
                lemma_write_run_join(rs, b, p, at, size, row, end, h, items);
            },
        }
    } else {
        let none = items.subrange(row, h);
        assert(none.len() == 0);
        assert(write_run(rs, b, p, at, row, none) =~= rs);
    }
}

/// The part of a column below a run that has been written.
proof fn lemma_op7_rest(
    d: Seq<u8>,
    b: Bmhd,
    p: int,
    at: int,
    size: int,
    rs: Seq<Seq<u8>>,
    prev: Seq<Seq<u8>>,
    cur: Seq<Seq<u8>>,
    oc: int,
    dc: int,
    row: int,
    end: int,
)
    requires
        ready(d, b, p, at, size, rs, prev, cur, oc, dc, row, end),
        row < end,
    ensures
        ({
            let ch = column_changed(prev, cur, b, p, at, size);
            let items = column_items(cur, b, p, at, size);
            let next = write_run(rs, b, p, at, row, items.subrange(row, end));
            op7_column(
                d,
                b,
                p,
                at,
                size,
                next,
                oc,
                dc,
                op7_count(ch, items, end),
                end,
            ) == (
                write_run(next, b, p, at, end, items.subrange(end, b.height as int)),
                Ok::<(int, int), IffError>(
                    (
                        oc + op7_ops(ch, items, end).len(),
                        dc + op7_data(ch, items, end).len(),
                    ),
                ),
            )
        }),
    decreases b.height - row, 0int,
{
    let items = column_items(cur, b, p, at, size);
    let part = items.subrange(row, end);
    let next = write_run(rs, b, p, at, row, part);
    assert forall|y: int| end <= y < b.height implies #[trigger] column_items(
        next,
        b,
        p,
        at,
        size,
    )[y] == column_items(prev, b, p, at, size)[y] by {
        lemma_items_below(rs, b, p, at, size, row, end, part, y);
        assert(column_items(rs, b, p, at, size)[y] == column_items(prev, b, p, at, size)[y]);
    }
    lemma_op7_column(d, b, p, at, size, next, prev, cur, oc, dc, end);
}

/// Reading back the columns of a plane.
proof fn lemma_op7_plane(
    d: Seq<u8>,
    b: Bmhd,
    p: int,
    size: int,
    rs: Seq<Seq<u8>>,
    prev: Seq<Seq<u8>>,
    cur: Seq<Seq<u8>>,
    oc: int,
    dc: int,
    at: int,
)
    requires
        shaped(rs, b),
        shaped(prev, b),
        shaped(cur, b),
        0 <= p < b.n_planes,
        size == 2 || size == 4,
        0 <= at <= b.row_len(),
        at % size == 0,
        b.row_len() % size == 0,
        op7_counts_fit(prev, cur, b, size, 8, 0),
        p < 8,
        half_done(rs, prev, cur, b, p, at),
        forall|i: int|
            0 <= i < rs.len() && plane_of(b, i) != p ==> #[trigger] rs[i] == merged(
                prev,
                cur,
                b,
                p,
            )[i],
        lies_at(d, oc, op7_op_columns(prev, cur, b, p, size, at)),
        lies_at(d, dc, op7_data_columns(prev, cur, b, p, size, at)),
    ensures
        op7_plane(d, b, p, size, rs, oc, dc, at) == (
            merged(prev, cur, b, p + 1),
            Ok::<(), IffError>(()),
        ),
    decreases b.row_len() - at,
{
    if at < b.row_len() {
        let ch = column_changed(prev, cur, b, p, at, size);
        let items = column_items(cur, b, p, at, size);
        let count = op7_column_count(prev, cur, b, p, at, size);
        let head = seq![count as u8];
        let ops = op7_ops(ch, items, 0);
        assert(at + size <= b.row_len());
        lemma_count(ch, items, 0);
        assert(count <= 0xFF);
        let op_rest = op7_op_columns(prev, cur, b, p, size, at + size);
        let data_rest = op7_data_columns(prev, cur, b, p, size, at + size);
        lemma_lies_split(d, oc, head + ops, op_rest);
        lemma_lies_split(d, oc, head, ops);
        lemma_lies_byte(d, oc, head, 0);
        lemma_lies_split(d, dc, op7_data(ch, items, 0), data_rest);
        assert forall|y: int| 0 <= y < b.height implies #[trigger] column_items(
            rs,
            b,
            p,
            at,
            size,
        )[y] == column_items(prev, b, p, at, size)[y] by {
            lemma_half_items(rs, prev, cur, b, p, at, size, y);
        }
        lemma_op7_column(d, b, p, at, size, rs, prev, cur, oc + 1, dc, 0);
        assert(items.subrange(0, b.height as int) =~= items);
        lemma_column_written(rs, prev, cur, b, p, at, size);
        let next = write_run(rs, b, p, at, 0, items);
        lemma_op7_plane(
            d,
            b,
            p,
            size,
            next,
            prev,
            cur,
            oc + 1 + ops.len(),
            dc + op7_data(ch, items, 0).len(),
            at + size,
        );
    } else {
        lemma_plane_done(rs, merged(prev, cur, b, p), prev, cur, b, p);
    }
}

/// A changed column has data.
proof fn lemma_dirty_data(ch: Seq<bool>, items: Seq<Seq<u8>>, size: int, i: int, y: int)
    requires
        0 <= i <= y < ch.len(),
        ch[y],
        size > 0,
        items.len() == ch.len(),
        forall|k: int| 0 <= k < items.len() ==> (#[trigger] items[k]).len() == size,
    ensures
        op7_data(ch, items, i).len() > 0,
    decreases ch.len() - i,
{
    lemma_next_run(ch, items, op7_rules(), i);
    let (kind, end) = next_run(ch, items, op7_rules(), i);
    match kind {
        RunKind::Skip => {
            assert(y >= end);
            lemma_dirty_data(ch, items, size, end, y);
        },
        RunKind::Same => {
            assert(items[i].len() == size);
        },
        RunKind::Uniq => {
            lemma_flat_len(items, i, end, size);
            assert((end - i) * size > 0) by (nonlinear_arith)
                requires
                    end > i,
                    size > 0,
            ;
        },
    }
}

/// A changed plane has data.
proof fn lemma_dirty_columns(
    prev: Seq<Seq<u8>>,
    cur: Seq<Seq<u8>>,
    b: Bmhd,
    p: int,
    size: int,
    at: int,
    hit: int,
)
    requires
        shaped(cur, b),
        0 <= p < b.rows_per_line(),
        size == 2 || size == 4,
        0 <= at <= hit,
        hit + size <= b.row_len(),
        at % size == 0,
        hit % size == 0,
        column_dirty(column_changed(prev, cur, b, p, hit, size)),
    ensures
        op7_data_columns(prev, cur, b, p, size, at).len() > 0,
    decreases hit - at,
{
    if at < hit {
        lemma_dirty_columns(prev, cur, b, p, size, at + size, hit);
    } else {
        let ch = column_changed(prev, cur, b, p, hit, size);
        let items = column_items(cur, b, p, hit, size);
        let y = choose|y: int| 0 <= y < ch.len() && ch[y];
        assert forall|k: int| 0 <= k < items.len() implies (#[trigger] items[k]).len() == size by {
            lemma_row_bounds(b, k, p);
            assert(cur[row_index(b, k, p)].len() == b.row_len());
        }
        lemma_dirty_data(ch, items, size, 0, y);
    }
}

/// A changed plane of an encoded payload is read back.
#[verifier::spinoff_prover]
#[verifier::rlimit(40)]
proof fn lemma_op7_dirty(prev: Seq<Seq<u8>>, cur: Seq<Seq<u8>>, b: Bmhd, size: int, p: int)
    requires
        shaped(prev, b),
        shaped(cur, b),
        b.n_planes <= 8,
        size == 2 || size == 4,
        b.row_len() % size == 0,
        0 <= p < b.n_planes,
        op7_counts_fit(prev, cur, b, size, 8, 0),
        op7_body(prev, cur, b, size).len() <= u32::MAX,
        plane_dirty(prev, cur, b, p, size),
    ensures
        ({
            let d = op7_body(prev, cur, b, size);
            &&& 0 < be32(d, 4 * p) < d.len()
            &&& be32(d, 4 * (8 + p)) < d.len()
            &&& op7_plane(
                d,
                b,
                p,
                size,
                merged(prev, cur, b, p),
                be32(d, 4 * p) as int,
                be32(d, 4 * (8 + p)) as int,
                0,
            ) == (merged(prev, cur, b, p + 1), Ok::<(), IffError>(()))
        }),
{
    let lists = op7_lists(prev, cur, b, size);
    lemma_pointers_fit(lists, 1, false);
    lemma_packed(lists, 1, false, p);
    lemma_packed(lists, 1, false, 8 + p);
    lemma_plane_start(prev, cur, b, p);
    let hit = choose|at: int|
        0 <= at && at + size <= b.row_len() && at % size == 0 && column_dirty(
            #[trigger] column_changed(prev, cur, b, p, at, size),
        );
    lemma_dirty_columns(prev, cur, b, p, size, 0, hit);
    assert(lists[p] == op7_op_columns(prev, cur, b, p, size, 0));
    assert(lists[8 + p] == op7_data_columns(prev, cur, b, p, size, 0));
    assert(lists[p].len() > 0);
    lemma_op7_plane(
        op7_body(prev, cur, b, size),
        b,
        p,
        size,
        merged(prev, cur, b, p),
        prev,
        cur,
        list_offset(lists, p),
        list_offset(lists, 8 + p),
        0,
    );
}

/// An unchanged plane of an encoded payload has no opcode list.
proof fn lemma_op7_clean(prev: Seq<Seq<u8>>, cur: Seq<Seq<u8>>, b: Bmhd, size: int, p: int)
    requires
        shaped(prev, b),
        shaped(cur, b),
        b.n_planes <= 8,
        size == 2 || size == 4,
        b.row_len() % size == 0,
        0 <= p < b.n_planes,
        op7_body(prev, cur, b, size).len() <= u32::MAX,
        !plane_dirty(prev, cur, b, p, size),
    ensures
        be32(op7_body(prev, cur, b, size), 4 * p) == 0,
        merged(prev, cur, b, p + 1) == merged(prev, cur, b, p),
{
    let lists = op7_lists(prev, cur, b, size);
    lemma_pointers_fit(lists, 1, false);
    lemma_packed(lists, 1, false, p);
    assert(lists[p].len() == 0);
    lemma_clean_plane(prev, cur, b, p, size);
    assert(merged(prev, cur, b, p + 1) =~= merged(prev, cur, b, p));
}

proof fn lemma_op7_planes(prev: Seq<Seq<u8>>, cur: Seq<Seq<u8>>, b: Bmhd, size: int, p: int)
    requires
        shaped(prev, b),
        shaped(cur, b),
        b.n_planes <= 8,
        size == 2 || size == 4,
        b.row_len() % size == 0,
        0 <= p <= b.n_planes,
        op7_counts_fit(prev, cur, b, size, 8, 0),
        op7_body(prev, cur, b, size).len() <= u32::MAX,
    ensures
        op7_planes(op7_body(prev, cur, b, size), b, size, merged(prev, cur, b, p), p) == (
            merged(prev, cur, b, b.n_planes as int),
            Ok::<(), IffError>(()),
        ),
    decreases b.n_planes - p,
{
    if p < b.n_planes {
        if plane_dirty(prev, cur, b, p, size) {
            lemma_op7_dirty(prev, cur, b, size, p);
        } else {
            lemma_op7_clean(prev, cur, b, size, p);
        }
        lemma_op7_planes(prev, cur, b, size, p + 1);
    }
}

/// The bytes of a column are bounded by its number of ops.
proof fn lemma_column_len(ch: Seq<bool>, items: Seq<Seq<u8>>, size: int, i: int)
    requires
        0 <= i,
        size == 2 || size == 4,
        ch.len() == items.len(),
        forall|k: int| 0 <= k < items.len() ==> (#[trigger] items[k]).len() == size,
    ensures
        0 <= op7_count(ch, items, i),
        op7_ops(ch, items, i).len() <= 2 * op7_count(ch, items, i),
        op7_data(ch, items, i).len() <= 0x7F * size * op7_count(ch, items, i),
    decreases ch.len() - i,
{
    if i < ch.len() {
        lemma_next_run(ch, items, op7_rules(), i);
        let (kind, end) = next_run(ch, items, op7_rules(), i);
        lemma_column_len(ch, items, size, end);
        lemma_flat_len(items, i, end, size);
        let n = op7_run_count(kind, end - i);
        let rest = op7_count(ch, items, end);
        assert(0x7F * size * (n + rest) == 0x7F * size * n + 0x7F * size * rest)
            by (nonlinear_arith);
        assert(op7_run_data(items, kind, i, end).len() <= 0x7F * size * n) by {
            if size == 2 {
            } else {
            }
        }
    }
}

/// The bytes of the columns from byte `at` of a row on, where no column has more ops than
/// fit its count byte.
proof fn lemma_columns_len(
    prev: Seq<Seq<u8>>,
    cur: Seq<Seq<u8>>,
    b: Bmhd,
    p: int,
    size: int,
    at: int,
)
    requires
        shaped(cur, b),
        size == 2 || size == 4,
        0 <= p < b.n_planes <= 8,
        0 <= at <= b.row_len(),
        at % size == 0,
        op7_counts_fit(prev, cur, b, size, 8, 0),
    ensures
        op7_op_columns(prev, cur, b, p, size, at).len() <= 0x100 * (b.row_len() - at),
        op7_data_columns(prev, cur, b, p, size, at).len() <= 0x7E81 * (b.row_len() - at),
    decreases b.row_len() - at,
{
    if at + size <= b.row_len() {
        let ch = column_changed(prev, cur, b, p, at, size);
        let items = column_items(cur, b, p, at, size);
        assert forall|k: int| 0 <= k < items.len() implies (#[trigger] items[k]).len() == size by {
            lemma_row_bounds(b, k, p);
            assert(cur[row_index(b, k, p)].len() == b.row_len());
        }
        lemma_column_len(ch, items, size, 0);
        assert(op7_column_count(prev, cur, b, p, at, size) <= 0xFF);
        lemma_columns_len(prev, cur, b, p, size, at + size);
    }
}

/// The first `n` lists of a payload stay small.
proof fn lemma_lists_len(prev: Seq<Seq<u8>>, cur: Seq<Seq<u8>>, b: Bmhd, size: int, n: int)
    requires
        shaped(cur, b),
        size == 2 || size == 4,
        b.n_planes <= 8,
        0 <= n <= 16,
        op7_counts_fit(prev, cur, b, size, 8, 0),
    ensures
        lists_len(op7_lists(prev, cur, b, size), n) <= if n <= 8 {
            0x20_0000 * n
        } else {
            0x100_0000 + 0xFD0_2000 * (n - 8)
        },
    decreases n,
{
    if n > 0 {
        lemma_lists_len(prev, cur, b, size, n - 1);
        let p = if n <= 8 {
            n - 1
        } else {
            n - 9
        };
        assert(0 <= b.row_len() <= 0x2000);
        if p < b.n_planes {
            lemma_columns_len(prev, cur, b, p, size, 0);
        }
    }
}

/// A payload fits its 32-bit pointers.
proof fn lemma_op7_len(prev: Seq<Seq<u8>>, cur: Seq<Seq<u8>>, b: Bmhd, size: int)
    requires
        shaped(cur, b),
        size == 2 || size == 4,
        b.n_planes <= 8,
        op7_counts_fit(prev, cur, b, size, 8, 0),
    ensures
        op7_body(prev, cur, b, size).len() <= u32::MAX,
{
    let lists = op7_lists(prev, cur, b, size);
    lemma_lists_len(prev, cur, b, size, 16);
    lemma_flat_total(lists, 16);
}

/// Applying an encoded payload to the earlier bitmap gives the later one; the mask rows,
/// which the payload does not address, stay those of the earlier.
pub proof fn law_op7_round_trip(
    prev: Seq<Seq<u8>>,
    cur: Seq<Seq<u8>>,
    b: Bmhd,
    long_data: bool,
    d: Seq<u8>,
)
    requires
        shaped(prev, b),
        shaped(cur, b),
        op7_encoded(prev, cur, b, long_data) == Ok::<Seq<u8>, IffError>(d),
    ensures
        op7_applied(d, b, prev, long_data) == (
            merged(prev, cur, b, b.n_planes as int),
            Ok::<(), IffError>(()),
        ),
{
    let size = item_size(long_data) as int;
    lemma_op7_len(prev, cur, b, size);
    lemma_pointers_fit(op7_lists(prev, cur, b, size), 1, false);
    lemma_packed(op7_lists(prev, cur, b, size), 1, false, 0);
    lemma_flat_total(op7_lists(prev, cur, b, size), 16);
    lemma_plane_start(prev, cur, b, 0);
    lemma_op7_planes(prev, cur, b, size, 0);
}

} // verus!
