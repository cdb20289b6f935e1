//! Which payloads can be applied.

use vstd::prelude::*;
use crate::anim::cells::{op5_next, op7_next};
use crate::anim::flat::{lemma_has_plane, lemma_plane_len, plane_bytes, with_plane};
use crate::anim::op23::{op23_applied, op23_groups, op23_planes};
use crate::anim::op4::{
    op4_applied, op4_end, op4_field, op4_list, op4_options, op4_planes, op4_size, past_end,
    write_words, Op4Options,
};
use crate::anim::op5::{addressed_planes, op5_applied, op5_column, op5_plane, op5_planes};
use crate::anim::op7::{item_size, op7_applied, op7_column, op7_plane, op7_planes};
use crate::bitmap::{advance, items_in, shaped, splice, write_run};
use crate::bytes::{be16, be32};
use crate::ilbm::Bmhd;

verus! {

/// Whether the operation-5 ops from byte `c` on are all there, up to the zero that ends them.
pub open spec fn op5_whole(d: Seq<u8>, c: int) -> bool
    decreases d.len() - c,
{
    &&& c < d.len()
    &&& {
        ||| d[c] == 0
        ||| 0 < d[c] < 128 && op5_whole(d, c + 1)
        ||| d[c] == 128 && c + 3 <= d.len() && op5_whole(d, c + 3)
        ||| d[c] > 128 && c + 1 + (d[c] - 128) <= d.len() && op5_whole(d, c + 1 + (d[c] - 128))
    }
}

/// Whether the operation-5 ops of `n` columns from byte `c` on are all there.
pub open spec fn op5_columns_whole(d: Seq<u8>, c: int, n: int) -> bool
    decreases n,
{
    n > 0 ==> op5_whole(d, c) && op5_columns_whole(d, op5_next(d, c), n - 1)
}

proof fn lemma_op5_whole(
    d: Seq<u8>,
    b: Bmhd,
    p: int,
    col: int,
    rs: Seq<Seq<u8>>,
    c: int,
    row: int,
)
    requires
        0 <= c,
    ensures
        op5_column(d, b, p, col, rs, c, row).1 is Ok <==> op5_whole(d, c),
        op5_whole(d, c) ==> op5_column(d, b, p, col, rs, c, row).1->Ok_0 == op5_next(d, c)
            && op5_next(d, c) > c,
    decreases d.len() - c,
{
    if c >= d.len() || d[c] == 0 {
    } else if d[c] < 128 {
        lemma_op5_whole(d, b, p, col, rs, c + 1, advance(b, row, d[c] as int));
    } else if d[c] == 128 {
        if c + 2 < d.len() {
            let n = d[c + 1] as int;
            let next = write_run(rs, b, p, col, row, items_in(d, c + 2, 1, 0, n));
            lemma_op5_whole(d, b, p, col, next, c + 3, advance(b, row, n));
        }
    } else {
        let n = d[c] - 128;
        if c + 1 + n <= d.len() {
            let next = write_run(rs, b, p, col, row, items_in(d, c + 1, 1, 1, n));
            lemma_op5_whole(d, b, p, col, next, c + 1 + n, advance(b, row, n));
        }
    }
}

proof fn lemma_op5_plane_whole(
    d: Seq<u8>,
    b: Bmhd,
    p: int,
    rs: Seq<Seq<u8>>,
    c: int,
    col: int,
)
    requires
        0 <= c,
    ensures
        op5_plane(d, b, p, rs, c, col).1 is Ok <==> op5_columns_whole(d, c, b.row_len() - col),
    decreases b.row_len() - col,
{
    if col < b.row_len() {
        lemma_op5_whole(d, b, p, col, rs, c, 0);
        if let (next, Ok(c2)) = op5_column(d, b, p, col, rs, c, 0) {
            lemma_op5_plane_whole(d, b, p, next, c2, col + 1);
        }
    }
}

/// Whether the table of an operation-5 payload leads to whole lists.
pub open spec fn op5_plane_whole(d: Seq<u8>, b: Bmhd, p: int) -> bool {
    let from = be32(d, 4 * p) as int;
    from == 0 || from < d.len() && op5_columns_whole(d, from, b.row_len())
}

proof fn lemma_op5_planes_whole(d: Seq<u8>, b: Bmhd, rs: Seq<Seq<u8>>, p: int)
    requires
        0 <= p,
    ensures
        op5_planes(d, b, rs, p).1 is Ok <==> forall|q: int|
            p <= q < addressed_planes(b) ==> #[trigger] op5_plane_whole(d, b, q),
    decreases addressed_planes(b) - p,
{
    if p < addressed_planes(b) {
        let from = be32(d, 4 * p) as int;
        lemma_op5_plane_whole(d, b, p, rs, from, 0);
        let next = if from == 0 {
            rs
        } else {
            op5_plane(d, b, p, rs, from, 0).0
        };
        lemma_op5_planes_whole(d, b, next, p + 1);
        if op5_plane_whole(d, b, p) {
            assert forall|q: int| p <= q < addressed_planes(b) && (forall|t: int|
                p + 1 <= t < addressed_planes(b) ==> #[trigger] op5_plane_whole(d, b, t)) implies #[trigger] op5_plane_whole(d, b, q) by {
                if q > p {
                    assert(p + 1 <= q);
                }
            }
        }
    }
}

/// An operation-5 payload can be applied exactly where its table is there and, for each of the
/// first eight colour planes that it has a pointer for, all ops of all columns are.
pub proof fn law_op5_accepted(d: Seq<u8>, b: Bmhd, rs: Seq<Seq<u8>>)
    ensures
        op5_applied(d, b, rs).1 is Ok <==> d.len() >= 32 && forall|p: int|
            0 <= p < b.n_planes && p < 8 ==> #[trigger] op5_plane_whole(d, b, p),
{
    lemma_op5_planes_whole(d, b, rs, 0);
}

/// Whether `left` operation-7 ops from byte `oc` on, and their data from byte `dc` on, are all
/// there.
pub open spec fn op7_whole(d: Seq<u8>, size: int, oc: int, dc: int, left: int) -> bool
    decreases left,
{
    left > 0 ==> {
        &&& oc < d.len()
        &&& d[oc] == 0 ==> oc + 1 < d.len() && dc + size <= d.len() && op7_whole(
            d,
            size,
            oc + 2,
            dc + size,
            left - 1,
        )
        &&& 0 < d[oc] < 128 ==> op7_whole(d, size, oc + 1, dc, left - 1)
        &&& d[oc] >= 128 ==> dc + (d[oc] - 128) * size <= d.len() && op7_whole(
            d,
            size,
            oc + 1,
            dc + (d[oc] - 128) * size,
            left - 1,
        )
    }
}

/// Whether the operation-7 ops of `n` columns, whose op counts start at byte `oc`, and their data
/// are all there.
pub open spec fn op7_columns_whole(d: Seq<u8>, size: int, oc: int, dc: int, n: int) -> bool
    decreases n,
{
    n > 0 ==> {
        let (o, e) = op7_next(d, size, oc + 1, dc, d[oc] as int);
        &&& oc < d.len()
        &&& op7_whole(d, size, oc + 1, dc, d[oc] as int)
        &&& op7_columns_whole(d, size, o, e, n - 1)
    }
}

proof fn lemma_op7_whole(
    d: Seq<u8>,
    b: Bmhd,
    p: int,
    at: int,
    size: int,
    rs: Seq<Seq<u8>>,
    oc: int,
    dc: int,
    left: int,
    row: int,
)
    ensures
        op7_column(d, b, p, at, size, rs, oc, dc, left, row).1 is Ok <==> op7_whole(
            d,
            size,
            oc,
            dc,
            left,
        ),
        op7_whole(d, size, oc, dc, left) ==> op7_column(
            d,
            b,
            p,
            at,
            size,
            rs,
            oc,
            dc,
            left,
            row,
        ).1->Ok_0 == op7_next(d, size, oc, dc, left),
    decreases left,
{
    if left <= 0 || oc >= d.len() {
    } else if d[oc] == 0 {
        let n = d[oc + 1] as int;
        let next = write_run(rs, b, p, at, row, items_in(d, dc, size, 0, n));
        lemma_op7_whole(
            d,
            b,
            p,
            at,
            size,
            next,
            oc + 2,
            dc + size,
            left - 1,
            advance(b, row, n),
        );
    } else if d[oc] < 128 {
        let to = advance(b, row, d[oc] as int);
        lemma_op7_whole(d, b, p, at, size, rs, oc + 1, dc, left - 1, to);
    } else {
        let n = d[oc] - 128;
        let next = write_run(rs, b, p, at, row, items_in(d, dc, size, size, n));
        lemma_op7_whole(
            d,
            b,
            p,
            at,
            size,
            next,
            oc + 1,
            dc + n * size,
            left - 1,
            advance(b, row, n),
        );
    }
}

proof fn lemma_op7_plane_whole(
    d: Seq<u8>,
    b: Bmhd,
    p: int,
    size: int,
    rs: Seq<Seq<u8>>,
    oc: int,
    dc: int,
    at: int,
    n: int,
)
    requires
        size > 0,
        n >= 0,
        at + n * size == b.row_len(),
    ensures
        op7_plane(d, b, p, size, rs, oc, dc, at).1 is Ok <==> op7_columns_whole(
            d,
            size,
            oc,
            dc,
            n,
        ),
    decreases n,
{
    if n > 0 {
        assert(n * size == (n - 1) * size + size && (n - 1) * size >= 0) by (nonlinear_arith)
            requires
                n > 0,
                size > 0,
        ;
        lemma_op7_whole(d, b, p, at, size, rs, oc + 1, dc, d[oc] as int, 0);
        if let (next, Ok((oc2, dc2))) = op7_column(
            d,
            b,
            p,
            at,
            size,
            rs,
            oc + 1,
            dc,
            d[oc] as int,
            0,
        ) {
            lemma_op7_plane_whole(d, b, p, size, next, oc2, dc2, at + size, n - 1);
        }
    } else {
        assert(n * size == 0) by (nonlinear_arith)
            requires
                n == 0,
        ;
    }
}

/// Whether the table of an operation-7 payload leads to whole lists.
pub open spec fn op7_plane_whole(d: Seq<u8>, b: Bmhd, size: int, p: int) -> bool {
    let ops = be32(d, 4 * p) as int;
    let data = be32(d, 32 + 4 * p) as int;
    ops == 0 || ops < d.len() && data < d.len() && op7_columns_whole(
        d,
        size,
        ops,
        data,
        b.row_len() / size,
    )
}

proof fn lemma_op7_planes_whole(d: Seq<u8>, b: Bmhd, size: int, rs: Seq<Seq<u8>>, p: int)
    requires
        0 <= p,
        size == 2 || size == 4,
        b.row_len() % size == 0,
    ensures
        op7_planes(d, b, size, rs, p).1 is Ok <==> forall|q: int|
            p <= q < addressed_planes(b) ==> #[trigger] op7_plane_whole(d, b, size, q),
    decreases addressed_planes(b) - p,
{
    if p < addressed_planes(b) {
        let ops = be32(d, 4 * p) as int;
        let data = be32(d, 4 * (8 + p)) as int;
        let n = b.row_len() / size;
        assert(n * size == b.row_len() && n >= 0) by {
            if size == 2 {
            } else {
            }
        }
        lemma_op7_plane_whole(d, b, p, size, rs, ops, data, 0, n);
        let next = if ops == 0 {
            rs
        } else {
            op7_plane(d, b, p, size, rs, ops, data, 0).0
        };
        lemma_op7_planes_whole(d, b, size, next, p + 1);
        if op7_plane_whole(d, b, size, p) {
            assert forall|q: int| p <= q < addressed_planes(b) && (forall|t: int|
                p + 1 <= t < addressed_planes(b) ==> #[trigger] op7_plane_whole(d, b, size, t)) implies #[trigger] op7_plane_whole(d, b, size, q) by {
                if q > p {
                    assert(p + 1 <= q);
                }
            }
        }
    }
}

/// An operation-7 payload can be applied exactly where rows are made of whole items, the table is
/// there and, for each of the first eight colour planes that it has ops for, all ops of all
/// columns and all their data are.
pub proof fn law_op7_accepted(
    d: Seq<u8>,
    b: Bmhd,
    rs: Seq<Seq<u8>>,
    long_data: bool,
    size: int,
)
    requires
        long_data && size == 4 || !long_data && size == 2,
    ensures
        op7_applied(d, b, rs, long_data).1 is Ok <==> b.row_len() % size == 0 && d.len() >= 64
            && forall|p: int|
            0 <= p < b.n_planes && p < 8 ==> #[trigger] op7_plane_whole(d, b, size, p),
{
    if b.row_len() % size == 0 {
        lemma_op7_planes_whole(d, b, size, rs, 0);
    }
}

/// Whether the operation-2 or -3 groups from byte `c` on are all there and stay within a plane of
/// `words` words, the cursor being at word `w`.
pub open spec fn op23_whole(d: Seq<u8>, size: int, words: int, c: int, w: int) -> bool
    decreases d.len() - c,
{
    let o = be16(d, c) as int;
    let n = be16(d, c + 2) as int;
    &&& c + 2 <= d.len()
    &&& size > 0
    &&& {
        ||| o == 0xFFFF
        ||| o < 0x8000 && w + o < words && c + 2 + size <= d.len() && op23_whole(
            d,
            size,
            words,
            c + 2 + size,
            w + o,
        )
        ||| 0x8000 <= o < 0xFFFF && c + 4 <= d.len() && n > 0 && w + (0xFFFE - o) + n <= words && c
            + 4 + n * size <= d.len() && n * size >= 0 && op23_whole(
            d,
            size,
            words,
            c + 4 + n * size,
            w + (0xFFFE - o) + n - 1,
        )
    }
}

proof fn lemma_op23_whole(d: Seq<u8>, size: int, buf: Seq<u8>, c: int, w: int)
    requires
        size == 2 || size == 4,
        0 <= c,
    ensures
        op23_groups(d, size, buf, c, w).1 is Ok <==> op23_whole(
            d,
            size,
            buf.len() as int / size,
            c,
            w,
        ),
        op23_groups(d, size, buf, c, w).0.len() == buf.len(),
    decreases d.len() - c,
{
    let o = be16(d, c) as int;
    let n = be16(d, c + 2) as int;
    if c + 2 > d.len() || o == 0xFFFF {
    } else if o < 0x8000 {
        let to = w + o;
        if c + 2 + size <= d.len() {
            let next = splice(buf, to * size, d.subrange(c + 2, c + 2 + size));
            lemma_op23_whole(d, size, next, c + 2 + size, to);
        }
    } else {
        let to = w + (0x1_0000 - o) - 2;
        assert(n * size >= 0) by (nonlinear_arith)
            requires
                n >= 0,
                size > 0,
        ;
        if c + 4 + n * size <= d.len() {
            let next = splice(buf, to * size, d.subrange(c + 4, c + 4 + n * size));
            lemma_op23_whole(d, size, next, c + 4 + n * size, to + n - 1);
        }
    }
}

/// Whether the table of an operation-2 or -3 payload leads to whole lists.
pub open spec fn op23_plane_whole(d: Seq<u8>, b: Bmhd, size: int, p: int) -> bool {
    let from = be32(d, 4 * p) as int;
    from == 0 || from < d.len() && op23_whole(
        d,
        size,
        (b.height * b.row_len()) / size,
        from,
        0,
    )
}

proof fn lemma_op23_planes_whole(d: Seq<u8>, b: Bmhd, size: int, rs: Seq<Seq<u8>>, p: int)
    requires
        0 <= p,
        size == 2 || size == 4,
        shaped(rs, b),
    ensures
        op23_planes(d, b, size, rs, p).1 is Ok <==> forall|q: int|
            p <= q < addressed_planes(b) ==> #[trigger] op23_plane_whole(d, b, size, q),
    decreases addressed_planes(b) - p,
{
    if p < addressed_planes(b) {
        let from = be32(d, 4 * p) as int;
        let was = plane_bytes(rs, b, p);
        lemma_has_plane(rs, b, p);
        lemma_plane_len(rs, b, p);
        lemma_op23_whole(d, size, was, from, 0);
        let next = if from == 0 {
            rs
        } else {
            with_plane(rs, b, p, op23_groups(d, size, was, from, 0).0)
        };
        assert(shaped(next, b)) by {
            assert forall|m: int| 0 <= m < next.len() implies (#[trigger] next[m]).len()
                == b.row_len() by {
                assert(rs[m].len() == b.row_len());
            }
        }
        lemma_op23_planes_whole(d, b, size, next, p + 1);
        if op23_plane_whole(d, b, size, p) {
            assert forall|q: int| p <= q < addressed_planes(b) && (forall|t: int|
                p + 1 <= t < addressed_planes(b) ==> #[trigger] op23_plane_whole(d, b, size, t)) implies #[trigger] op23_plane_whole(d, b, size, q) by {
                if q > p {
                    assert(p + 1 <= q);
                }
            }
        }
    }
}

/// An operation-2 or -3 payload can be applied exactly where its table is there and, for each of
/// the first eight colour planes that it has a pointer for, all groups are there and stay within
/// the plane.
pub proof fn law_op23_accepted(
    d: Seq<u8>,
    b: Bmhd,
    rs: Seq<Seq<u8>>,
    long_data: bool,
    size: int,
)
    requires
        shaped(rs, b),
        long_data && size == 4 || !long_data && size == 2,
    ensures
        op23_applied(d, b, rs, long_data).1 is Ok <==> d.len() >= 32 && forall|p: int|
            0 <= p < b.n_planes && p < 8 ==> #[trigger] op23_plane_whole(d, b, size, p),
{
    lemma_op23_planes_whole(d, b, size, rs, 0);
}

/// Whether the operation-4 ops from byte `oc` on, and their data from byte `dc` on, are all there
/// and stay within a plane of `words` words, `nw` of which make a row.
pub open spec fn op4_whole(
    d: Seq<u8>,
    wide: bool,
    size: int,
    nw: int,
    words: int,
    oc: int,
    dc: int,
) -> bool
    decreases d.len() - oc,
{
    let step = if wide {
        4int
    } else {
        2int
    };
    let start = if wide {
        be32(d, oc) as int
    } else {
        be16(d, oc) as int
    };
    let raw = if wide {
        be32(d, oc + 4) as int
    } else {
        be16(d, oc + 2) as int
    };
    let n = if wide && raw >= 0x8000_0000 {
        raw - 0x1_0000_0000
    } else if !wide && raw >= 0x8000 {
        raw - 0x1_0000
    } else {
        raw
    };
    &&& oc + step <= d.len()
    &&& {
        ||| wide && start == 0xFFFF_FFFF
        ||| !wide && start == 0xFFFF
        ||| {
            &&& oc + 2 * step <= d.len()
            &&& n < 0 ==> dc + size <= d.len() && start + (-n - 1) * nw < words && op4_whole(
                d,
                wide,
                size,
                nw,
                words,
                oc + 2 * step,
                dc + size,
            )
            &&& n >= 0 ==> dc + n * size <= d.len() && (n > 0 ==> start + (n - 1) * nw < words)
                && op4_whole(d, wide, size, nw, words, oc + 2 * step, dc + n * size)
        }
    }
}

proof fn lemma_op4_whole(
    d: Seq<u8>,
    b: Bmhd,
    p: int,
    opts: Op4Options,
    rs: Seq<Seq<u8>>,
    oc: int,
    dc: int,
)
    requires
        0 <= oc,
    ensures
        ({
            let size = item_size(opts.long_data) as int;
            let nw = b.row_len() / size;
            op4_list(d, b, p, opts, rs, oc, dc).1 is Ok <==> op4_whole(
                d,
                opts.long_offsets,
                size,
                nw,
                b.height * nw,
                oc,
                dc,
            )
        }),
    decreases d.len() - oc,
{
    let wide = opts.long_offsets;
    let step = item_size(wide) as int;
    let size = item_size(opts.long_data) as int;
    let start = op4_field(d, wide, oc) as int;
    let n = op4_size(wide, op4_field(d, wide, oc + step));
    if oc + 2 * step <= d.len() && start != op4_end(wide) {
        let same = write_words(rs, b, p, size, start, items_in(d, dc, size, 0, -n));
        let uniq = write_words(rs, b, p, size, start, items_in(d, dc, size, size, n));
        if n < 0 {
            lemma_op4_whole(d, b, p, opts, same, oc + 2 * step, dc + size);
            assert(past_end(b, size, start, -n) || !past_end(b, size, start, -n));
        } else {
            lemma_op4_whole(d, b, p, opts, uniq, oc + 2 * step, dc + n * size);
            assert(past_end(b, size, start, n) || !past_end(b, size, start, n));
        }
    }
}

/// Whether the table of an operation-4 payload leads to whole lists.
pub open spec fn op4_plane_whole(d: Seq<u8>, b: Bmhd, wide: bool, size: int, p: int) -> bool {
    let data = 2 * be32(d, 4 * p);
    let ops = 2 * be32(d, 32 + 4 * p);
    let nw = b.row_len() / size;
    ops == 0 || data <= d.len() && ops < d.len() && op4_whole(
        d,
        wide,
        size,
        nw,
        b.height * nw,
        ops,
        data,
    )
}

proof fn lemma_op4_planes_whole(
    d: Seq<u8>,
    b: Bmhd,
    opts: Op4Options,
    wide: bool,
    size: int,
    rs: Seq<Seq<u8>>,
    p: int,
)
    requires
        0 <= p,
        wide == opts.long_offsets,
        size == item_size(opts.long_data),
        d.len() <= usize::MAX,
    ensures
        op4_planes(d, b, opts, rs, p).1 is Ok <==> forall|q: int|
            p <= q < addressed_planes(b) ==> #[trigger] op4_plane_whole(d, b, wide, size, q),
    decreases addressed_planes(b) - p,
{
    if p < addressed_planes(b) {
        let data = 2 * be32(d, 4 * p);
        let ops = 2 * be32(d, 4 * (8 + p));
        lemma_op4_whole(d, b, p, opts, rs, ops, data);
        let next = if ops == 0 {
            rs
        } else {
            op4_list(d, b, p, opts, rs, ops, data).0
        };
        lemma_op4_planes_whole(d, b, opts, wide, size, next, p + 1);
        if op4_plane_whole(d, b, wide, size, p) {
            assert forall|q: int| p <= q < addressed_planes(b) && (forall|t: int|
                p + 1 <= t < addressed_planes(b) ==> #[trigger] op4_plane_whole(d, b, wide, size, t)) implies #[trigger] op4_plane_whole(d, b, wide, size, q) by {
                if q > p {
                    assert(p + 1 <= q);
                }
            }
        }
    }
}

/// An operation-4 payload can be applied exactly where its options are those of vertical, run
/// length coded replacement with no reserved bit set, rows are made of whole words, the table is
/// there and, for each of the first eight colour planes that it has ops for, all ops and data are
/// there and stay within the plane.
pub proof fn law_op4_accepted(
    d: Seq<u8>,
    b: Bmhd,
    rs: Seq<Seq<u8>>,
    bits: u32,
    wide: bool,
    size: int,
)
    requires
        bits % 2 == 1 && size == 4 || bits % 2 == 0 && size == 2,
        wide == (bits / 32 % 2 == 1),
        d.len() <= usize::MAX,
    ensures
        op4_applied(d, b, rs, bits).1 is Ok <==> bits < 64 && bits / 2 % 2 == 0 && bits / 8 % 2 == 1
            && bits / 16 % 2 == 1 && b.row_len() % size == 0 && d.len() >= 64 && forall|p: int|
            0 <= p < b.n_planes && p < 8 ==> #[trigger] op4_plane_whole(d, b, wide, size, p),
{
    if let Ok(opts) = op4_options(bits) {
        lemma_op4_planes_whole(d, b, opts, wide, size, rs, 0);
    }
}

} // verus!
