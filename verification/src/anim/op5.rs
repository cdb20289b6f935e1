//! Operation 5, Byte Vertical Delta.
//!
//! The payload opens with eight big-endian pointers, one per colour plane; a
//! zero pointer leaves the plane as it is. A plane's list walks the byte
//! columns of the plane from left to right. A column is a list of ops that
//! walk its rows from top to bottom:
//!
//! * `0` ends the column;
//! * `1..=0x7F` skips that many rows;
//! * `0x80, n, v` writes `v` to the next `n` rows;
//! * `0x81..=0xFF` writes the low seven bits' number of literal bytes.

use vstd::prelude::*;
use crate::anim::column::{
    column_changed, column_dirty, column_items, flat_items, half_done, holds_colour,
    lemma_clean_plane, lemma_column_written, lemma_flat_item, lemma_flat_len, lemma_half_items,
    lemma_items_below, lemma_next_run, lemma_plane_done, lemma_plane_start, lemma_write_run_skip,
    next_run, plane_dirty, push_skips, skip_ops, ColumnRef, RunKind, RunRules,
};
use crate::anim::lists::{
    lemma_packed, lemma_pointers_fit, list_offset, list_views, pack_lists, packed, pointers_fit,
};
use crate::bitmap::{
    advance, items_in, lemma_row_bounds, lemma_write_run_join, merged, plane_of, row_index, rows,
    shaped, step_down, write_items, write_run,
};
use crate::bytes::{be32, read_be32, viewed};
use crate::error::{IffError, Reason};
use crate::ilbm::Bmhd;

verus! {

/// Number of colour planes that a pointer table of eight slots reaches.
pub open spec fn addressed_planes(b: Bmhd) -> int {
    if b.n_planes <= 8 {
        b.n_planes as int
    } else {
        8
    }
}

/// The ops of one column, read from byte `c` on with the row cursor at `row`:
/// the bitmap they leave, and the byte that follows the column.
pub open spec fn op5_column(
    d: Seq<u8>,
    b: Bmhd,
    p: int,
    col: int,
    rs: Seq<Seq<u8>>,
    c: int,
    row: int,
) -> (Seq<Seq<u8>>, Result<int, IffError>)
    decreases d.len() - c,
{
    if c >= d.len() {
        (rs, Err(IffError::invalid("ANIM op 5: data list truncated mid-column")))
    } else if d[c] == 0 {
        (rs, Ok(c + 1))
    } else if d[c] < 0x80 {
        op5_column(d, b, p, col, rs, c + 1, advance(b, row, d[c] as int))
    } else if d[c] == 0x80 {
        if c + 2 >= d.len() {
            (rs, Err(IffError::invalid("ANIM op 5: 0x80 extension truncated")))
        } else {
            let n = d[c + 1] as int;
            op5_column(
                d,
                b,
                p,
                col,
                write_run(rs, b, p, col, row, items_in(d, c + 2, 1, 0, n)),
                c + 3,
                advance(b, row, n),
            )
        }
    } else {
        let n = d[c] - 0x80;
        if c + 1 + n > d.len() {
            (rs, Err(IffError::invalid("ANIM op 5: literal run extends past delta")))
        } else {
            op5_column(
                d,
                b,
                p,
                col,
                write_run(rs, b, p, col, row, items_in(d, c + 1, 1, 1, n)),
                c + 1 + n,
                advance(b, row, n),
            )
        }
    }
}

/// The columns of a plane from `col` on.
pub open spec fn op5_plane(d: Seq<u8>, b: Bmhd, p: int, rs: Seq<Seq<u8>>, c: int, col: int) -> (
    Seq<Seq<u8>>,
    Result<(), IffError>,
)
    decreases b.row_len() - col,
{
    if col >= b.row_len() {
        (rs, Ok(()))
    } else {
        match op5_column(d, b, p, col, rs, c, 0) {
            (next, Ok(c2)) => op5_plane(d, b, p, next, c2, col + 1),
            (next, Err(e)) => (next, Err(e)),
        }
    }
}

/// The planes from `p` on.
pub open spec fn op5_planes(d: Seq<u8>, b: Bmhd, rs: Seq<Seq<u8>>, p: int) -> (
    Seq<Seq<u8>>,
    Result<(), IffError>,
)
    decreases addressed_planes(b) - p,
{
    if p >= addressed_planes(b) {
        (rs, Ok(()))
    } else if be32(d, 4 * p) == 0 {
        op5_planes(d, b, rs, p + 1)
    } else if be32(d, 4 * p) >= d.len() {
        (rs, Err(IffError::invalid("ANIM op 5: data pointer out of range")))
    } else {
        match op5_plane(d, b, p, rs, be32(d, 4 * p) as int, 0) {
            (next, Ok(())) => op5_planes(d, b, next, p + 1),
            (next, Err(e)) => (next, Err(e)),
        }
    }
}

/// What an operation-5 payload makes of a bitmap. A malformed payload leaves
/// the bitmap as far as the ops before the fault have changed it.
pub open spec fn op5_applied(d: Seq<u8>, b: Bmhd, rs: Seq<Seq<u8>>) -> (
    Seq<Seq<u8>>,
    Result<(), IffError>,
) {
    if d.len() < 32 {
        (rs, Err(IffError::invalid("ANIM op 5: pointer table truncated")))
    } else {
        op5_planes(d, b, rs, 0)
    }
}

/// Number of colour planes that a pointer table of eight slots reaches.
pub fn count_addressed_planes(b: &Bmhd) -> (n: usize)
    ensures
        n == addressed_planes(*b),
        n <= 8,
        n <= b.n_planes,
{
    if b.n_planes <= 8 {
        b.n_planes as usize
    } else {
        8
    }
}

#[verifier::loop_isolation(false)]
fn apply_op5_column(
    planar: &mut [Vec<u8>],
    delta: &[u8],
    bmhd: &Bmhd,
    p: usize,
    col: usize,
    from: usize,
) -> (r: Result<usize, IffError>)
    requires
        p < bmhd.n_planes,
        col < 0x2000,
    ensures
        match r {
            Ok(c) => c <= delta@.len() && op5_column(
                delta@,
                *bmhd,
                p as int,
                col as int,
                rows(old(planar)@),
                from as int,
                0,
            ) == (rows(final(planar)@), Ok::<int, IffError>(c as int)),
            Err(e) => op5_column(
                delta@,
                *bmhd,
                p as int,
                col as int,
                rows(old(planar)@),
                from as int,
                0,
            ) == (rows(final(planar)@), Err::<int, IffError>(e)),
        },
{
    let ghost target = op5_column(
        delta@,
        *bmhd,
        p as int,
        col as int,
        rows(planar@),
        from as int,
        0,
    );
    let total: usize = delta.len();
    let mut c: usize = from;
    let mut row: usize = 0;
    loop
        invariant
            p < bmhd.n_planes,
            col < 0x2000,
            total == delta@.len(),
            row <= bmhd.height,
            op5_column(
                delta@,
                *bmhd,
                p as int,
                col as int,
                rows(planar@),
                c as int,
                row as int,
            ) == target,
        decreases total - c,
    {
        if c >= total {
            return Err(IffError::invalid("ANIM op 5: data list truncated mid-column"));
        }
        let op: u8 = delta[c];
        if op == 0 {
            return Ok(c + 1);
        } else if op < 0x80 {
            row = step_down(bmhd, row, op as usize);
            c += 1;
        } else if op == 0x80 {
            if total - c < 3 {
                return Err(IffError::invalid("ANIM op 5: 0x80 extension truncated"));
            }
            let n: usize = delta[c + 1] as usize;
            write_items(planar, bmhd, p, col, row, delta, c + 2, 1, 0, n);
            row = step_down(bmhd, row, n);
            c += 3;
        } else {
            let n: usize = (op - 0x80) as usize;
            if total - c - 1 < n {
                return Err(IffError::invalid("ANIM op 5: literal run extends past delta"));
            }
            write_items(planar, bmhd, p, col, row, delta, c + 1, 1, 1, n);
            row = step_down(bmhd, row, n);
            c += 1 + n;
        }
    }
}

/// Applies an operation-5 payload to a bitmap.
#[verifier::loop_isolation(false)]
pub fn apply_op5(planar: &mut [Vec<u8>], delta: &[u8], bmhd: &Bmhd) -> (r: Result<(), IffError>)
    ensures
        (rows(final(planar)@), r) == op5_applied(delta@, *bmhd, rows(old(planar)@)),
{
    if delta.len() < 32 {
        return Err(IffError::invalid("ANIM op 5: pointer table truncated"));
    }
    let ghost target = op5_planes(delta@, *bmhd, rows(planar@), 0);
    let total: usize = delta.len();
    let row_bytes: usize = bmhd.row_bytes();
    let n_planes: usize = count_addressed_planes(bmhd);
    let mut p: usize = 0;
    while p < n_planes
        invariant
            p <= n_planes,
            n_planes <= 8,
            n_planes <= bmhd.n_planes,
            n_planes == addressed_planes(*bmhd),
            row_bytes == bmhd.row_len(),
            row_bytes <= 0x2000,
            total == delta@.len(),
            total >= 32,
            op5_planes(delta@, *bmhd, rows(planar@), p as int) == target,
        decreases n_planes - p,
    {
        let off: usize = read_be32(delta, 4 * p) as usize;
        if off != 0 {
            if off >= total {
                return Err(IffError::invalid("ANIM op 5: data pointer out of range"));
            }
            let ghost plane = op5_plane(delta@, *bmhd, p as int, rows(planar@), off as int, 0);
            let mut c: usize = off;
            let mut col: usize = 0;
            while col < row_bytes
                invariant
                    p < n_planes,
                    n_planes <= bmhd.n_planes,
                    n_planes == addressed_planes(*bmhd),
                    col <= row_bytes,
                    row_bytes == bmhd.row_len(),
                    row_bytes <= 0x2000,
                    op5_plane(delta@, *bmhd, p as int, rows(planar@), c as int, col as int)
                        == plane,
                    plane.1 is Err ==> target == plane,
                decreases row_bytes - col,
            {
                match apply_op5_column(planar, delta, bmhd, p, col, c) {
                    Ok(next) => {
                        c = next;
                    },
                    Err(e) => {
                        return Err(e);
                    },
                }
                col += 1;
            }
        }
        p += 1;
    }
    Ok(())
}

/// Repeats from three equal bytes on, counts that fit the op bytes.
#[verifier::allow_in_spec]
pub fn op5_rules() -> RunRules
    returns
        (RunRules { same_min: 3, same_max: 0xFF, uniq_max: 0x7F }),
{
    RunRules { same_min: 3, same_max: 0xFF, uniq_max: 0x7F }
}

/// The ops of one run.
pub open spec fn op5_run(items: Seq<Seq<u8>>, kind: RunKind, i: int, end: int) -> Seq<u8> {
    match kind {
        RunKind::Skip => skip_ops(end - i),
        RunKind::Same => seq![0x80u8, (end - i) as u8] + items[i],
        RunKind::Uniq => seq![(0x80 + (end - i)) as u8] + flat_items(items, i, end),
    }
}

/// The ops of a column from row `i` on, with the byte that ends it.
pub open spec fn op5_ops(ch: Seq<bool>, items: Seq<Seq<u8>>, i: int) -> Seq<u8>
    decreases ch.len() - i,
{
    if 0 <= i < ch.len() {
        proof {
            lemma_next_run(ch, items, op5_rules(), i);
        }
        let (kind, end) = next_run(ch, items, op5_rules(), i);
        op5_run(items, kind, i, end) + op5_ops(ch, items, end)
    } else {
        seq![0u8]
    }
}

/// The columns of a plane from `col` on.
pub open spec fn op5_columns(
    prev: Seq<Seq<u8>>,
    cur: Seq<Seq<u8>>,
    b: Bmhd,
    p: int,
    col: int,
) -> Seq<u8>
    decreases b.row_len() - col,
{
    if col < b.row_len() {
        op5_ops(
            column_changed(prev, cur, b, p, col, 1),
            column_items(cur, b, p, col, 1),
            0,
        ) + op5_columns(prev, cur, b, p, col + 1)
    } else {
        Seq::empty()
    }
}

/// The list of a plane; empty where the plane has not changed.
pub open spec fn op5_list(prev: Seq<Seq<u8>>, cur: Seq<Seq<u8>>, b: Bmhd, p: int) -> Seq<u8> {
    if p < b.n_planes && plane_dirty(prev, cur, b, p, 1) {
        op5_columns(prev, cur, b, p, 0)
    } else {
        Seq::empty()
    }
}

/// The operation-5 payload that turns `prev` into `cur`.
pub open spec fn op5_body(prev: Seq<Seq<u8>>, cur: Seq<Seq<u8>>, b: Bmhd) -> Seq<u8> {
    packed(Seq::new(8, |p: int| op5_list(prev, cur, b, p)), 1, false)
}

/// Appends the ops of a column; the result says whether the column has changed.
fn encode_op5_column(out: &mut Vec<u8>, column: &ColumnRef) -> (dirty: bool)
    requires
        column.valid(),
        column.size == 1,
    ensures
        final(out)@ == old(out)@ + op5_ops(column.changed(), column.items(), 0),
        dirty == column_dirty(column.changed()),
{
    let height: usize = column.bmhd.height as usize;
    let rules: RunRules = op5_rules();
    let ghost before = out@;
    let ghost ch = column.changed();
    let ghost items = column.items();
    let mut dirty: bool = false;
    let mut i: usize = 0;
    assert(out@ + op5_ops(ch, items, 0) =~= before + op5_ops(ch, items, 0));
    while i < height
        invariant
            column.valid(),
            column.size == 1,
            height == column.bmhd.height,
            rules == op5_rules(),
            ch == column.changed(),
            items == column.items(),
            ch.len() == height,
            i <= height,
            out@ + op5_ops(ch, items, i as int) == before + op5_ops(ch, items, 0),
            dirty == exists|y: int| 0 <= y < i && ch[y],
        decreases height - i,
    {
        let ghost mid = out@;
        proof {
            lemma_next_run(ch, items, rules, i as int);
        }
        let (kind, end) = column.find_run(&rules, i);
        match kind {
            RunKind::Skip => {
                push_skips(out, end - i);
            },
            RunKind::Same => {
                out.push(0x80);
                out.push((end - i) as u8);
                column.push_item(out, i);
                dirty = true;
                assert(ch[i as int]);
            },
            RunKind::Uniq => {
                out.push((0x80 + (end - i)) as u8);
                column.push_items(out, i, end);
                dirty = true;
                assert(ch[i as int]);
            },
        }
        proof {
            assert(out@ =~= mid + op5_run(items, kind, i as int, end as int));
            assert(out@ + op5_ops(ch, items, end as int) =~= mid + op5_ops(ch, items, i as int));
        }
        i = end;
    }
    out.push(0);
    assert(out@ =~= before + op5_ops(ch, items, 0));
    dirty
}

/// What encoding the step from one bitmap to the next gives: the payload, or a fault of
/// the bitmaps' shape.
pub open spec fn op5_encoded(prev: Seq<Seq<u8>>, cur: Seq<Seq<u8>>, b: Bmhd) -> Result<
    Seq<u8>,
    IffError,
> {
    let count = b.height * b.rows_per_line();
    if prev.len() != count || cur.len() != count {
        Err(
            IffError::Invalid(
                Reason::RowCount {
                    op: "5",
                    prev: prev.len() as usize,
                    cur: cur.len() as usize,
                    expected: count as usize,
                },
            ),
        )
    } else if b.n_planes > 8 {
        Err(IffError::Unsupported(Reason::TooManyPlanes { op: "5", planes: b.n_planes }))
    } else {
        Ok(op5_body(prev, cur, b))
    }
}

/// Encodes the payload that turns one bitmap into the next.
#[verifier::loop_isolation(false)]
pub fn encode_op5_body(prev_planar: &[Vec<u8>], cur_planar: &[Vec<u8>], bmhd: &Bmhd) -> (r: Result<
    Vec<u8>,
    IffError,
>)
    requires
        prev_planar@.len() == bmhd.height * bmhd.rows_per_line() && cur_planar@.len()
            == bmhd.height * bmhd.rows_per_line() && bmhd.n_planes <= 8 ==> holds_colour(
            rows(prev_planar@),
            *bmhd,
        ) && holds_colour(rows(cur_planar@), *bmhd),
    ensures
        viewed(r) == op5_encoded(rows(prev_planar@), rows(cur_planar@), *bmhd),
{
    let row_bytes: usize = bmhd.row_bytes();
    let expected: usize = bmhd.row_count();
    if prev_planar.len() != expected || cur_planar.len() != expected {
        return Err(
            IffError::Invalid(
                Reason::RowCount {
                    op: "5",
                    prev: prev_planar.len(),
                    cur: cur_planar.len(),
                    expected: expected,
                },
            ),
        );
    }
    if bmhd.n_planes > 8 {
        return Err(
            IffError::Unsupported(Reason::TooManyPlanes { op: "5", planes: bmhd.n_planes }),
        );
    }
    let ghost prev = rows(prev_planar@);
    let ghost cur = rows(cur_planar@);
    let n_planes: usize = bmhd.n_planes as usize;
    let mut lists: Vec<Vec<u8>> = Vec::new();
    let mut p: usize = 0;
    while p < 8
        invariant
            p <= 8,
            lists@.len() == p,
            forall|s: int| 0 <= s < p ==> #[trigger] lists@[s]@ == op5_list(prev, cur, *bmhd, s),
        decreases 8 - p,
    {
        let mut list: Vec<u8> = Vec::new();
        if p < n_planes {
            let mut dirty: bool = false;
            let mut col: usize = 0;
            assert(list@ + op5_columns(prev, cur, *bmhd, p as int, 0) =~= op5_columns(
                prev,
                cur,
                *bmhd,
                p as int,
                0,
            ));
            while col < row_bytes
                invariant
                    col <= row_bytes,
                    list@ + op5_columns(prev, cur, *bmhd, p as int, col as int) == op5_columns(
                        prev,
                        cur,
                        *bmhd,
                        p as int,
                        0,
                    ),
                    dirty == exists|at: int|
                        0 <= at < col && column_dirty(
                            #[trigger] column_changed(prev, cur, *bmhd, p as int, at, 1),
                        ),
                decreases row_bytes - col,
            {
                let column = ColumnRef {
                    prev: prev_planar,
                    cur: cur_planar,
                    bmhd: *bmhd,
                    plane: p,
                    at: col,
                    size: 1,
                };
                let ghost before = list@;
                let changed: bool = encode_op5_column(&mut list, &column);
                assert(column.changed() == column_changed(
                    prev,
                    cur,
                    *bmhd,
                    p as int,
                    col as int,
                    1,
                ));
                dirty = dirty || changed;
                assert(list@ + op5_columns(prev, cur, *bmhd, p as int, col + 1) =~= before
                    + op5_columns(prev, cur, *bmhd, p as int, col as int));
                col += 1;
            }
            assert(list@ =~= op5_columns(prev, cur, *bmhd, p as int, 0));
            assert(dirty == plane_dirty(prev, cur, *bmhd, p as int, 1)) by {
                if plane_dirty(prev, cur, *bmhd, p as int, 1) {
                    let at = choose|at: int|
                        0 <= at && at + 1 <= bmhd.row_len() && at % 1 == 0 && column_dirty(
                            #[trigger] column_changed(prev, cur, *bmhd, p as int, at, 1),
                        );
                    assert(0 <= at < col);
                }
                if dirty {
                    let at = choose|at: int|
                        0 <= at < col && column_dirty(
                            #[trigger] column_changed(prev, cur, *bmhd, p as int, at, 1),
                        );
                    assert(at % 1 == 0);
                }
            }
            if !dirty {
                list = Vec::new();
            }
        }
        lists.push(list);
        p += 1;
    }
    assert(list_views(lists@) =~= Seq::new(8, |s: int| op5_list(prev, cur, *bmhd, s)));
    Ok(pack_lists(&lists, 1, false))
}

proof fn lemma_skips(
    d: Seq<u8>,
    b: Bmhd,
    p: int,
    col: int,
    rs: Seq<Seq<u8>>,
    c: int,
    row: int,
    n: int,
)
    requires
        0 <= c,
        0 <= n,
        0 <= row,
        row + n <= b.height,
        c + skip_ops(n).len() <= d.len(),
        d.subrange(c, c + skip_ops(n).len()) == skip_ops(n),
    ensures
        op5_column(d, b, p, col, rs, c, row) == op5_column(
            d,
            b,
            p,
            col,
            rs,
            c + skip_ops(n).len(),
            row + n,
        ),
    decreases n,
{
    let ops = skip_ops(n);
    if n > 0 {
        let step = if n > 0x7F {
            0x7F
        } else {
            n
        };
        let rest = skip_ops(n - step);
        assert(ops =~= seq![step as u8] + rest);
        assert(d[c] == d.subrange(c, c + ops.len())[0]);
        assert(d.subrange(c + 1, c + 1 + rest.len()) =~= rest) by {
            assert forall|k: int| 0 <= k < rest.len() implies d[c + 1 + k] == rest[k] by {
                assert(d.subrange(c, c + ops.len())[k + 1] == ops[k + 1]);
            }
        }
        lemma_skips(d, b, p, col, rs, c + 1, row + step, n - step);
    }
}

/// Reading back the ops of a column writes its items.
proof fn lemma_op5_column(
    d: Seq<u8>,
    b: Bmhd,
    p: int,
    col: int,
    rs: Seq<Seq<u8>>,
    prev: Seq<Seq<u8>>,
    cur: Seq<Seq<u8>>,
    c: int,
    row: int,
)
    requires
        shaped(prev, b),
        shaped(cur, b),
        rs.len() == b.height * b.rows_per_line(),
        0 <= p < b.rows_per_line(),
        0 <= col < b.row_len(),
        0 <= row <= b.height,
        0 <= c,
        forall|y: int|
            row <= y < b.height ==> #[trigger] column_items(rs, b, p, col, 1)[y] == column_items(
                prev,
                b,
                p,
                col,
                1,
            )[y],
        ({
            let ops = op5_ops(
                column_changed(prev, cur, b, p, col, 1),
                column_items(cur, b, p, col, 1),
                row,
            );
            c + ops.len() <= d.len() && d.subrange(c, c + ops.len()) == ops
        }),
    ensures
        op5_column(d, b, p, col, rs, c, row) == (
            write_run(
                rs,
                b,
                p,
                col,
                row,
                column_items(cur, b, p, col, 1).subrange(row, b.height as int),
            ),
            Ok::<int, IffError>(
                c + op5_ops(
                    column_changed(prev, cur, b, p, col, 1),
                    column_items(cur, b, p, col, 1),
                    row,
                ).len(),
            ),
        ),
    decreases b.height - row, 1int,
{
    let h = b.height as int;
    let ch = column_changed(prev, cur, b, p, col, 1);
    let items = column_items(cur, b, p, col, 1);
    let ops = op5_ops(ch, items, row);
    let sub = d.subrange(c, c + ops.len());
    assert forall|k: int| 0 <= k < items.len() implies (#[trigger] items[k]).len() == 1 by {
        lemma_row_bounds(b, k, p);
        assert(cur[row_index(b, k, p)].len() == b.row_len());
    }
    if row < h {
        lemma_next_run(ch, items, op5_rules(), row);
        let (kind, end) = next_run(ch, items, op5_rules(), row);
        let run = op5_run(items, kind, row, end);
        let rest = op5_ops(ch, items, end);
        let n = end - row;
        let c2 = c + run.len();
        assert(ops == run + rest);
        assert(d.subrange(c, c2) =~= run) by {
            assert forall|k: int| 0 <= k < run.len() implies d[c + k] == run[k] by {
                assert(sub[k] == ops[k]);
            }
        }
        assert(d.subrange(c2, c2 + rest.len()) =~= rest) by {
            assert forall|k: int| 0 <= k < rest.len() implies d[c2 + k] == rest[k] by {
                assert(sub[run.len() + k] == ops[run.len() + k]);
            }
        }
        let part = items.subrange(row, end);
        match kind {
            RunKind::Skip => {
                lemma_skips(d, b, p, col, rs, c, row, n);
                assert forall|y: int| row <= y < end implies #[trigger] column_items(
                    rs,
                    b,
                    p,
                    col,
                    1,
                )[y] == items[y] by {
                    assert(!ch[y]);
                    lemma_row_bounds(b, y, p);
                    assert(prev[row_index(b, y, p)].len() == b.row_len());
                }
                lemma_op5_column(d, b, p, col, rs, prev, cur, c2, end);
                lemma_write_run_skip(rs, b, p, col, 1, row, end, items);
            },
            RunKind::Same => {
                assert(run.len() == 3);
                assert(run[0] == 0x80 && run[1] == n && run[2] == items[row][0]);
                assert(d[c] == d.subrange(c, c2)[0]);
                assert(d[c + 1] == d.subrange(c, c2)[1]);
                assert(d[c + 2] == d.subrange(c, c2)[2]);
                let read = items_in(d, c + 2, 1, 0, n);
                assert forall|j: int| 0 <= j < n implies read[j] == part[j] by {
                    assert(items[row + j] == items[row]);
                    assert(read[j] =~= items[row]);
                }
                assert(read =~= part);
                let next = write_run(rs, b, p, col, row, part);
                lemma_op5_rest(d, b, p, col, rs, prev, cur, c2, row, end);
                lemma_write_run_join(rs, b, p, col, 1, row, end, h, items);
            },
            RunKind::Uniq => {
                lemma_flat_len(items, row, end, 1);
                assert(run.len() == 1 + n);
                assert(d[c] == d.subrange(c, c2)[0]);
                assert(d[c] == 0x80 + n);
                let read = items_in(d, c + 1, 1, 1, n);
                assert forall|j: int| 0 <= j < n implies read[j] == part[j] by {
                    lemma_flat_item(items, row, end, 1, row + j);
                    let flat = flat_items(items, row, end);
                    assert(flat.subrange(j, j + 1)[0] == items[row + j][0]);
                    assert(d[c + 1 + j] == d.subrange(c, c2)[1 + j]);
                    assert(run[1 + j] == flat[j]);
                    assert(read[j] =~= items[row + j]);
                }
                assert(read =~= part);
                lemma_op5_rest(d, b, p, col, rs, prev, cur, c2, row, end);
                lemma_write_run_join(rs, b, p, col, 1, row, end, h, items);
            },
        }
    } else {
        assert(d[c] == sub[0]);
        let none = items.subrange(row, h);
        assert(none.len() == 0);
        assert(write_run(rs, b, p, col, row, none) =~= rs);
    }
}

/// The part of a column below a run that has been written.
proof fn lemma_op5_rest(
    d: Seq<u8>,
    b: Bmhd,
    p: int,
    col: int,
    rs: Seq<Seq<u8>>,
    prev: Seq<Seq<u8>>,
    cur: Seq<Seq<u8>>,
    c: int,
    row: int,
    end: int,
)
    requires
        shaped(prev, b),
        shaped(cur, b),
        rs.len() == b.height * b.rows_per_line(),
        0 <= p < b.rows_per_line(),
        0 <= col < b.row_len(),
        0 <= row < end <= b.height,
        0 <= c,
        forall|y: int|
            row <= y < b.height ==> #[trigger] column_items(rs, b, p, col, 1)[y] == column_items(
                prev,
                b,
                p,
                col,
                1,
            )[y],
        ({
            let ops = op5_ops(
                column_changed(prev, cur, b, p, col, 1),
                column_items(cur, b, p, col, 1),
                end,
            );
            c + ops.len() <= d.len() && d.subrange(c, c + ops.len()) == ops
        }),
    ensures
        ({
            let items = column_items(cur, b, p, col, 1);
            let next = write_run(rs, b, p, col, row, items.subrange(row, end));
            op5_column(d, b, p, col, next, c, end) == (
                write_run(next, b, p, col, end, items.subrange(end, b.height as int)),
                Ok::<int, IffError>(
                    c + op5_ops(column_changed(prev, cur, b, p, col, 1), items, end).len(),
                ),
            )
        }),
    decreases b.height - row, 0int,
{
    let items = column_items(cur, b, p, col, 1);
    let part = items.subrange(row, end);
    let next = write_run(rs, b, p, col, row, part);
    assert forall|y: int| end <= y < b.height implies #[trigger] column_items(
        next,
        b,
        p,
        col,
        1,
    )[y] == column_items(prev, b, p, col, 1)[y] by {
        lemma_items_below(rs, b, p, col, 1, row, end, part, y);
        assert(column_items(rs, b, p, col, 1)[y] == column_items(prev, b, p, col, 1)[y]);
    }
    lemma_op5_column(d, b, p, col, next, prev, cur, c, end);
}

/// Reading back the columns of a plane.
proof fn lemma_op5_plane(
    d: Seq<u8>,
    b: Bmhd,
    p: int,
    rs: Seq<Seq<u8>>,
    prev: Seq<Seq<u8>>,
    cur: Seq<Seq<u8>>,
    c: int,
    col: int,
)
    requires
        shaped(rs, b),
        shaped(prev, b),
        shaped(cur, b),
        0 <= p < b.rows_per_line(),
        0 <= col <= b.row_len(),
        0 <= c,
        half_done(rs, prev, cur, b, p, col),
        forall|i: int|
            0 <= i < rs.len() && plane_of(b, i) != p ==> #[trigger] rs[i] == merged(
                prev,
                cur,
                b,
                p,
            )[i],
        c + op5_columns(prev, cur, b, p, col).len() <= d.len(),
        d.subrange(c, c + op5_columns(prev, cur, b, p, col).len()) == op5_columns(
            prev,
            cur,
            b,
            p,
            col,
        ),
    ensures
        op5_plane(d, b, p, rs, c, col) == (
            merged(prev, cur, b, p + 1),
            Ok::<(), IffError>(()),
        ),
    decreases b.row_len() - col,
{
    if col < b.row_len() {
        let ch = column_changed(prev, cur, b, p, col, 1);
        let items = column_items(cur, b, p, col, 1);
        let all = op5_columns(prev, cur, b, p, col);
        let ops = op5_ops(ch, items, 0);
        let rest = op5_columns(prev, cur, b, p, col + 1);
        let sub = d.subrange(c, c + all.len());
        let c2 = c + ops.len();
        assert(all == ops + rest);
        assert(d.subrange(c, c2) =~= ops) by {
            assert forall|k: int| 0 <= k < ops.len() implies d[c + k] == ops[k] by {
                assert(sub[k] == all[k]);
            }
        }
        assert(d.subrange(c2, c2 + rest.len()) =~= rest) by {
            assert forall|k: int| 0 <= k < rest.len() implies d[c2 + k] == rest[k] by {
                assert(sub[ops.len() + k] == all[ops.len() + k]);
            }
        }
        assert forall|y: int| 0 <= y < b.height implies #[trigger] column_items(
            rs,
            b,
            p,
            col,
            1,
        )[y] == column_items(prev, b, p, col, 1)[y] by {
            lemma_half_items(rs, prev, cur, b, p, col, 1, y);
        }
        lemma_op5_column(d, b, p, col, rs, prev, cur, c, 0);
        assert(items.subrange(0, b.height as int) =~= items);
        lemma_column_written(rs, prev, cur, b, p, col, 1);
        let next = write_run(rs, b, p, col, 0, items);
        lemma_op5_plane(d, b, p, next, prev, cur, c2, col + 1);
    } else {
        lemma_plane_done(rs, merged(prev, cur, b, p), prev, cur, b, p);
    }
}

/// Whether the list of every changed plane starts where its pointer can say so.
pub open spec fn op5_pointers_fit(prev: Seq<Seq<u8>>, cur: Seq<Seq<u8>>, b: Bmhd) -> bool {
    pointers_fit(Seq::new(8, |s: int| op5_list(prev, cur, b, s)), 1)
}

/// In a payload of less than four gigabytes every list does.
pub proof fn lemma_op5_short(prev: Seq<Seq<u8>>, cur: Seq<Seq<u8>>, b: Bmhd)
    requires
        op5_body(prev, cur, b).len() <= u32::MAX,
    ensures
        op5_pointers_fit(prev, cur, b),
{
    lemma_pointers_fit(Seq::new(8, |s: int| op5_list(prev, cur, b, s)), 1, false);
}

proof fn lemma_op5_ops_end(ch: Seq<bool>, items: Seq<Seq<u8>>, i: int)
    requires
        0 <= i <= ch.len(),
    ensures
        op5_ops(ch, items, i).len() >= 1,
    decreases ch.len() - i,
{
    if i < ch.len() {
        lemma_next_run(ch, items, op5_rules(), i);
        lemma_op5_ops_end(ch, items, next_run(ch, items, op5_rules(), i).1);
    }
}

proof fn lemma_op5_planes(prev: Seq<Seq<u8>>, cur: Seq<Seq<u8>>, b: Bmhd, p: int)
    requires
        shaped(prev, b),
        shaped(cur, b),
        b.n_planes <= 8,
        0 <= p <= b.n_planes,
        op5_pointers_fit(prev, cur, b),
    ensures
        op5_planes(op5_body(prev, cur, b), b, merged(prev, cur, b, p), p) == (
            merged(prev, cur, b, b.n_planes as int),
            Ok::<(), IffError>(()),
        ),
    decreases b.n_planes - p,
{
    if p < b.n_planes {
        let lists = Seq::new(8, |s: int| op5_list(prev, cur, b, s));
        let d = op5_body(prev, cur, b);
        let rs = merged(prev, cur, b, p);
        lemma_packed(lists, 1, false, p);
        lemma_plane_start(prev, cur, b, p);
        if plane_dirty(prev, cur, b, p, 1) {
            assert(b.row_len() > 0);
            lemma_op5_ops_end(
                column_changed(prev, cur, b, p, 0, 1),
                column_items(cur, b, p, 0, 1),
                0,
            );
            assert(lists[p] == op5_columns(prev, cur, b, p, 0));
            assert(lists[p].len() > 0);
            lemma_op5_plane(d, b, p, rs, prev, cur, list_offset(lists, p), 0);
            lemma_op5_planes(prev, cur, b, p + 1);
        } else {
            assert(lists[p].len() == 0);
            lemma_clean_plane(prev, cur, b, p, 1);
            assert(merged(prev, cur, b, p + 1) =~= rs);
            lemma_op5_planes(prev, cur, b, p + 1);
        }
    }
}

/// Applying an encoded payload to the earlier bitmap gives the later one; the mask rows,
/// which the payload does not address, stay those of the earlier. The lists have to start
/// where 32-bit pointers reach.
pub proof fn law_op5_round_trip(
    prev: Seq<Seq<u8>>,
    cur: Seq<Seq<u8>>,
    b: Bmhd,
    d: Seq<u8>,
)
    requires
        shaped(prev, b),
        shaped(cur, b),
        op5_encoded(prev, cur, b) == Ok::<Seq<u8>, IffError>(d),
        op5_pointers_fit(prev, cur, b),
    ensures
        op5_applied(d, b, prev) == (
            merged(prev, cur, b, b.n_planes as int),
            Ok::<(), IffError>(()),
        ),
{
    let lists = Seq::new(8, |s: int| op5_list(prev, cur, b, s));
    lemma_packed(lists, 1, false, 0);
    lemma_plane_start(prev, cur, b, 0);
    lemma_op5_planes(prev, cur, b, 0);
}

} // verus!
