//! What becomes of a single byte of a bitmap under a delta, read off the payload.

use vstd::prelude::*;
use crate::anim::anhd::Anhd;
use crate::anim::column::lemma_flat_item;
use crate::anim::delta::delta_applied;
use crate::anim::flat::{lemma_has_plane, lemma_plane_len, plane_bytes, plane_rows, with_plane};
use crate::anim::op1::op1_applied;
use crate::anim::op23::{op23_applied, op23_groups, op23_planes};
use crate::anim::op4::{
    op4_applied, op4_end, op4_field, op4_list, op4_options, op4_planes, op4_size, write_words,
    Op4Options,
};
use crate::anim::op5::{addressed_planes, op5_applied, op5_column, op5_plane, op5_planes};
use crate::anim::op7::{item_size, op7_applied, op7_column, op7_plane, op7_planes};
use crate::bitmap::{advance, items_in, line_of, plane_of, shaped, splice, write_run};
use crate::bytes::{be16, be32};
use crate::error::IffError;
use crate::ilbm::{Bmhd, Compression};
use crate::ilbm::body::rows_replaced;

verus! {

/// The byte of scanline `y` in a column whose operation-5 ops start at byte `c`, where the next
/// op is for scanline `r`: a byte below 128 skips so many scanlines, 128 is followed by a count
/// and a byte to repeat, and more than 128 by as many bytes as it exceeds that by.
pub open spec fn op5_byte(d: Seq<u8>, c: int, r: int, y: int, was: u8) -> u8
    decreases d.len() - c,
{
    if c >= d.len() || d[c] == 0 {
        was
    } else if d[c] < 128 {
        op5_byte(d, c + 1, r + d[c], y, was)
    } else if c + (if d[c] == 128 {
        3
    } else {
        d[c] - 127
    }) > d.len() {
        was
    } else if d[c] == 128 {
        op5_byte(
            d,
            c + 3,
            r + d[c + 1],
            y,
            if r <= y < r + d[c + 1] {
                d[c + 2]
            } else {
                was
            },
        )
    } else {
        let n = d[c] - 128;
        op5_byte(
            d,
            c + 1 + n,
            r + n,
            y,
            if r <= y < r + n {
                d[c + 1 + (y - r)]
            } else {
                was
            },
        )
    }
}

/// Where the operation-5 ops of a column that start at byte `c` end.
pub open spec fn op5_next(d: Seq<u8>, c: int) -> int
    decreases d.len() - c,
{
    if c >= d.len() || d[c] == 0 {
        c + 1
    } else if d[c] < 128 {
        op5_next(d, c + 1)
    } else if c + (if d[c] == 128 {
        3
    } else {
        d[c] - 127
    }) > d.len() {
        c + 1
    } else if d[c] == 128 {
        op5_next(d, c + 3)
    } else {
        op5_next(d, c + 1 + (d[c] - 128))
    }
}

/// Where the operation-5 ops of column `k` start, those of the first column starting at `c`.
pub open spec fn op5_start(d: Seq<u8>, c: int, k: int) -> int
    decreases k,
{
    if k <= 0 {
        c
    } else {
        op5_next(d, op5_start(d, c, k - 1))
    }
}

proof fn lemma_op5_column_byte(
    d: Seq<u8>,
    b: Bmhd,
    p: int,
    col: int,
    rs: Seq<Seq<u8>>,
    c: int,
    r: int,
    i: int,
    k: int,
)
    requires
        shaped(rs, b),
        0 <= i < rs.len(),
        0 <= k < b.row_len(),
        0 <= col < b.row_len(),
        0 <= c,
        0 <= r,
        0 <= line_of(b, i) < b.height,
        op5_column(d, b, p, col, rs, c, advance(b, r, 0)).1 is Ok,
    ensures
        ({
            let (out, end) = op5_column(d, b, p, col, rs, c, advance(b, r, 0));
            &&& shaped(out, b)
            &&& end == Ok::<int, IffError>(op5_next(d, c))
            &&& out[i][k] == if plane_of(b, i) == p && k == col {
                op5_byte(d, c, r, line_of(b, i), rs[i][k])
            } else {
                rs[i][k]
            }
        }),
    decreases d.len() - c,
{
    let row = advance(b, r, 0);
    if d[c] == 0 {
    } else if d[c] < 0x80 {
        assert(advance(b, row, d[c] as int) == advance(b, r + d[c], 0));
        lemma_op5_column_byte(d, b, p, col, rs, c + 1, r + d[c], i, k);
    } else if d[c] == 0x80 {
        let n = d[c + 1] as int;
        let next = write_run(rs, b, p, col, row, items_in(d, c + 2, 1, 0, n));
        assert(advance(b, row, n) == advance(b, r + n, 0));
        assert(shaped(next, b));
        lemma_op5_column_byte(d, b, p, col, next, c + 3, r + n, i, k);
    } else {
        let n = d[c] - 0x80;
        let next = write_run(rs, b, p, col, row, items_in(d, c + 1, 1, 1, n));
        assert(advance(b, row, n) == advance(b, r + n, 0));
        assert(shaped(next, b));
        lemma_op5_column_byte(d, b, p, col, next, c + 1 + n, r + n, i, k);
    }
}

proof fn lemma_op5_plane_byte(
    d: Seq<u8>,
    b: Bmhd,
    p: int,
    rs: Seq<Seq<u8>>,
    from: int,
    col: int,
    i: int,
    k: int,
)
    requires
        shaped(rs, b),
        0 <= i < rs.len(),
        0 <= k < b.row_len(),
        0 <= col <= b.row_len(),
        0 <= from,
        0 <= line_of(b, i) < b.height,
        op5_plane(d, b, p, rs, op5_start(d, from, col), col).1 is Ok,
    ensures
        ({
            let out = op5_plane(d, b, p, rs, op5_start(d, from, col), col).0;
            &&& shaped(out, b)
            &&& out[i][k] == if plane_of(b, i) == p && k >= col {
                op5_byte(d, op5_start(d, from, k), 0, line_of(b, i), rs[i][k])
            } else {
                rs[i][k]
            }
        }),
    decreases b.row_len() - col,
{
    lemma_op5_start(d, from, col);
    if col < b.row_len() {
        let c = op5_start(d, from, col);
        lemma_op5_column_byte(d, b, p, col, rs, c, 0, i, k);
        let next = op5_column(d, b, p, col, rs, c, 0).0;
        lemma_op5_plane_byte(d, b, p, next, from, col + 1, i, k);
    }
}

proof fn lemma_op5_next(d: Seq<u8>, c: int)
    ensures
        op5_next(d, c) > c,
    decreases d.len() - c,
{
    if c >= d.len() || d[c] == 0 {
    } else if d[c] < 128 {
        lemma_op5_next(d, c + 1);
    } else if c + (if d[c] == 128 {
        3
    } else {
        d[c] - 127
    }) > d.len() {
    } else if d[c] == 128 {
        lemma_op5_next(d, c + 3);
    } else {
        lemma_op5_next(d, c + 1 + (d[c] - 128));
    }
}

proof fn lemma_op5_start(d: Seq<u8>, c: int, k: int)
    requires
        0 <= c,
    ensures
        op5_start(d, c, k) >= c,
    decreases k,
{
    if k > 0 {
        lemma_op5_start(d, c, k - 1);
        lemma_op5_next(d, op5_start(d, c, k - 1));
    }
}

proof fn lemma_op5_planes_byte(d: Seq<u8>, b: Bmhd, rs: Seq<Seq<u8>>, p: int, i: int, k: int)
    requires
        shaped(rs, b),
        0 <= i < rs.len(),
        0 <= k < b.row_len(),
        0 <= p,
        0 <= line_of(b, i) < b.height,
        op5_planes(d, b, rs, p).1 is Ok,
    ensures
        ({
            let out = op5_planes(d, b, rs, p).0;
            let q = plane_of(b, i);
            &&& out.len() == rs.len()
            &&& out[i].len() == rs[i].len()
            &&& out[i][k] == if p <= q < addressed_planes(b) && be32(d, 4 * q) != 0 {
                op5_byte(
                    d,
                    op5_start(d, be32(d, 4 * q) as int, k),
                    0,
                    line_of(b, i),
                    rs[i][k],
                )
            } else {
                rs[i][k]
            }
        }),
    decreases addressed_planes(b) - p,
{
    if p < addressed_planes(b) {
        let from = be32(d, 4 * p) as int;
        if from == 0 {
            lemma_op5_planes_byte(d, b, rs, p + 1, i, k);
        } else {
            lemma_op5_plane_byte(d, b, p, rs, from, 0, i, k);
            let next = op5_plane(d, b, p, rs, from, 0).0;
            lemma_op5_planes_byte(d, b, next, p + 1, i, k);
        }
    }
}

/// Where an operation-5 payload can be applied, the byte of every colour plane that its table
/// points to is what the ops of its column make of it, and all other bytes stay: those of planes
/// without a pointer, of planes beyond the eighth, and of the mask.
pub proof fn law_op5_bytes(d: Seq<u8>, b: Bmhd, rs: Seq<Seq<u8>>, i: int, k: int)
    requires
        shaped(rs, b),
        0 <= i < rs.len(),
        0 <= k < b.row_len(),
        op5_applied(d, b, rs).1 is Ok,
    ensures
        ({
            let out = op5_applied(d, b, rs).0;
            let q = i % b.rows_per_line();
            let from = be32(d, 4 * q) as int;
            &&& out.len() == rs.len()
            &&& out[i].len() == rs[i].len()
            &&& out[i][k] == if q < b.n_planes && q < 8 && from != 0 {
                op5_byte(d, op5_start(d, from, k), 0, i / b.rows_per_line(), rs[i][k])
            } else {
                rs[i][k]
            }
        }),
{
    crate::bitmap::lemma_line_bounds(b, i);
    lemma_op5_planes_byte(d, b, rs, 0, i, k);
}

/// Byte `q` of the item of scanline `y` in a column with `left` operation-7 ops from byte `oc`
/// on, whose data start at byte `dc`, where the next op is for scanline `r`: zero is followed by
/// a count of scanlines that all get the next item, a byte below 128 skips so many scanlines,
/// and another gives the next items to as many scanlines as it exceeds 128 by.
pub open spec fn op7_byte(
    d: Seq<u8>,
    size: int,
    oc: int,
    dc: int,
    left: int,
    r: int,
    y: int,
    q: int,
    was: u8,
) -> u8
    decreases left,
{
    if left <= 0 {
        was
    } else if d[oc] == 0 {
        op7_byte(
            d,
            size,
            oc + 2,
            dc + size,
            left - 1,
            r + d[oc + 1],
            y,
            q,
            if r <= y < r + d[oc + 1] {
                d[dc + q]
            } else {
                was
            },
        )
    } else if d[oc] < 128 {
        op7_byte(d, size, oc + 1, dc, left - 1, r + d[oc], y, q, was)
    } else {
        let n = d[oc] - 128;
        op7_byte(
            d,
            size,
            oc + 1,
            dc + n * size,
            left - 1,
            r + n,
            y,
            q,
            if r <= y < r + n {
                d[dc + (y - r) * size + q]
            } else {
                was
            },
        )
    }
}

/// Where `left` operation-7 ops from byte `oc` on, whose data start at byte `dc`, end, and where
/// their data do.
pub open spec fn op7_next(d: Seq<u8>, size: int, oc: int, dc: int, left: int) -> (int, int)
    decreases left,
{
    if left <= 0 {
        (oc, dc)
    } else if d[oc] == 0 {
        op7_next(d, size, oc + 2, dc + size, left - 1)
    } else if d[oc] < 128 {
        op7_next(d, size, oc + 1, dc, left - 1)
    } else {
        op7_next(d, size, oc + 1, dc + (d[oc] - 128) * size, left - 1)
    }
}

/// Where the op count of column `j` stands, and where its data start.
pub open spec fn op7_start(d: Seq<u8>, size: int, oc: int, dc: int, j: int) -> (int, int)
    decreases j,
{
    if j <= 0 {
        (oc, dc)
    } else {
        let (o, e) = op7_start(d, size, oc, dc, j - 1);
        op7_next(d, size, o + 1, e, d[o] as int)
    }
}

proof fn lemma_op7_column_byte(
    d: Seq<u8>,
    b: Bmhd,
    p: int,
    at: int,
    size: int,
    rs: Seq<Seq<u8>>,
    oc: int,
    dc: int,
    left: int,
    r: int,
    i: int,
    k: int,
)
    requires
        shaped(rs, b),
        0 <= i < rs.len(),
        0 <= k < b.row_len(),
        0 <= at,
        0 < size,
        at + size <= b.row_len(),
        0 <= oc,
        0 <= dc,
        0 <= r,
        0 <= line_of(b, i) < b.height,
        op7_column(d, b, p, at, size, rs, oc, dc, left, advance(b, r, 0)).1 is Ok,
    ensures
        ({
            let (out, end) = op7_column(d, b, p, at, size, rs, oc, dc, left, advance(b, r, 0));
            &&& shaped(out, b)
            &&& end == Ok::<(int, int), IffError>(op7_next(d, size, oc, dc, left))
            &&& op7_next(d, size, oc, dc, left).0 >= oc
            &&& op7_next(d, size, oc, dc, left).1 >= dc
            &&& out[i][k] == if plane_of(b, i) == p && at <= k < at + size {
                op7_byte(d, size, oc, dc, left, r, line_of(b, i), k - at, rs[i][k])
            } else {
                rs[i][k]
            }
        }),
    decreases left,
{
    let row = advance(b, r, 0);
    let y = line_of(b, i);
    if left <= 0 {
    } else if d[oc] == 0 {
        let n = d[oc + 1] as int;
        let items = items_in(d, dc, size, 0, n);
        let next = write_run(rs, b, p, at, row, items);
        assert(advance(b, row, n) == advance(b, r + n, 0));
        assert(shaped(next, b));
        assert(r <= y < r + n ==> items[y - r] == d.subrange(
            dc + (y - r) * 0,
            dc + (y - r) * 0 + size,
        ));
        lemma_op7_column_byte(d, b, p, at, size, next, oc + 2, dc + size, left - 1, r + n, i, k);
    } else if d[oc] < 0x80 {
        assert(advance(b, row, d[oc] as int) == advance(b, r + d[oc], 0));
        lemma_op7_column_byte(d, b, p, at, size, rs, oc + 1, dc, left - 1, r + d[oc], i, k);
    } else {
        let n = d[oc] - 0x80;
        let items = items_in(d, dc, size, size, n);
        let next = write_run(rs, b, p, at, row, items);
        assert(advance(b, row, n) == advance(b, r + n, 0));
        assert(shaped(next, b)) by {
            assert forall|m: int| 0 <= m < next.len() implies (#[trigger] next[m]).len()
                == b.row_len() by {
                assert(rs[m].len() == b.row_len());
            }
        }
        assert(n * size >= 0) by (nonlinear_arith)
            requires
                n >= 0,
                size > 0,
        ;
        if r <= y < r + n {
            let s = y - r;
            assert(0 <= s * size && s * size + size <= n * size) by (nonlinear_arith)
                requires
                    0 <= s < n,
                    size > 0,
            ;
            assert(items[s] == d.subrange(dc + s * size, dc + s * size + size));
        }
        lemma_op7_column_byte(
            d,
            b,
            p,
            at,
            size,
            next,
            oc + 1,
            dc + n * size,
            left - 1,
            r + n,
            i,
            k,
        );
    }
}

proof fn lemma_op7_plane_byte(
    d: Seq<u8>,
    b: Bmhd,
    p: int,
    size: int,
    rs: Seq<Seq<u8>>,
    oc: int,
    dc: int,
    j: int,
    i: int,
    k: int,
)
    requires
        shaped(rs, b),
        0 <= i < rs.len(),
        0 <= k < b.row_len(),
        size == 2 || size == 4,
        b.row_len() % size == 0,
        0 <= j,
        j * size <= b.row_len(),
        0 <= op7_start(d, size, oc, dc, j).0,
        0 <= op7_start(d, size, oc, dc, j).1,
        0 <= line_of(b, i) < b.height,
        op7_plane(
            d,
            b,
            p,
            size,
            rs,
            op7_start(d, size, oc, dc, j).0,
            op7_start(d, size, oc, dc, j).1,
            j * size,
        ).1 is Ok,
    ensures
        ({
            let out = op7_plane(
                d,
                b,
                p,
                size,
                rs,
                op7_start(d, size, oc, dc, j).0,
                op7_start(d, size, oc, dc, j).1,
                j * size,
            ).0;
            let (o, e) = op7_start(d, size, oc, dc, k / size);
            &&& shaped(out, b)
            &&& out[i][k] == if plane_of(b, i) == p && k >= j * size {
                op7_byte(
                    d,
                    size,
                    o + 1,
                    e,
                    d[o] as int,
                    0,
                    line_of(b, i),
                    k % size,
                    rs[i][k],
                )
            } else {
                rs[i][k]
            }
        }),
    decreases b.row_len() - j * size,
{
    let at = j * size;
    if at + size <= b.row_len() {
        let (o, e) = op7_start(d, size, oc, dc, j);
        lemma_op7_column_byte(d, b, p, at, size, rs, o + 1, e, d[o] as int, 0, i, k);
        let next = op7_column(d, b, p, at, size, rs, o + 1, e, d[o] as int, 0).0;
        assert((j + 1) * size == at + size) by (nonlinear_arith)
            requires
                at == j * size,
        ;
        lemma_op7_plane_byte(d, b, p, size, next, oc, dc, j + 1, i, k);
        if at <= k < at + size {
            assert(k / size == j && k % size == k - at) by {
                if size == 2 {
                } else {
                }
            }
        }
    } else {
        assert(at == b.row_len()) by {
            if size == 2 {
            } else {
            }
        }
    }
}

proof fn lemma_op7_planes_byte(
    d: Seq<u8>,
    b: Bmhd,
    size: int,
    rs: Seq<Seq<u8>>,
    p: int,
    i: int,
    k: int,
)
    requires
        shaped(rs, b),
        0 <= i < rs.len(),
        0 <= k < b.row_len(),
        size == 2 || size == 4,
        b.row_len() % size == 0,
        0 <= p,
        0 <= line_of(b, i) < b.height,
        op7_planes(d, b, size, rs, p).1 is Ok,
    ensures
        ({
            let out = op7_planes(d, b, size, rs, p).0;
            let q = plane_of(b, i);
            let (o, e) = op7_start(
                d,
                size,
                be32(d, 4 * q) as int,
                be32(d, 4 * (8 + q)) as int,
                k / size,
            );
            &&& out.len() == rs.len()
            &&& out[i].len() == rs[i].len()
            &&& out[i][k] == if p <= q < addressed_planes(b) && be32(d, 4 * q) != 0 {
                op7_byte(
                    d,
                    size,
                    o + 1,
                    e,
                    d[o] as int,
                    0,
                    line_of(b, i),
                    k % size,
                    rs[i][k],
                )
            } else {
                rs[i][k]
            }
        }),
    decreases addressed_planes(b) - p,
{
    if p < addressed_planes(b) {
        let oc = be32(d, 4 * p) as int;
        let dc = be32(d, 4 * (8 + p)) as int;
        if oc == 0 {
            lemma_op7_planes_byte(d, b, size, rs, p + 1, i, k);
        } else {
            lemma_op7_plane_byte(d, b, p, size, rs, oc, dc, 0, i, k);
            let next = op7_plane(d, b, p, size, rs, oc, dc, 0).0;
            lemma_op7_planes_byte(d, b, size, next, p + 1, i, k);
        }
    }
}

/// Where an operation-7 payload can be applied, the byte of every colour plane that its table
/// has ops for is what the ops of its column make of it, and all other bytes stay. The first
/// eight pointers are those to ops, the next eight those to data; a column is two bytes wide, or
/// four with long data.
pub proof fn law_op7_bytes(
    d: Seq<u8>,
    b: Bmhd,
    rs: Seq<Seq<u8>>,
    long_data: bool,
    i: int,
    k: int,
)
    requires
        shaped(rs, b),
        0 <= i < rs.len(),
        0 <= k < b.row_len(),
        op7_applied(d, b, rs, long_data).1 is Ok,
    ensures
        ({
            let out = op7_applied(d, b, rs, long_data).0;
            let size = if long_data {
                4int
            } else {
                2int
            };
            let p = i % b.rows_per_line();
            let ops = be32(d, 4 * p) as int;
            let data = be32(d, 32 + 4 * p) as int;
            let (o, e) = op7_start(d, size, ops, data, k / size);
            &&& out.len() == rs.len()
            &&& out[i].len() == rs[i].len()
            &&& out[i][k] == if p < b.n_planes && p < 8 && ops != 0 {
                op7_byte(
                    d,
                    size,
                    o + 1,
                    e,
                    d[o] as int,
                    0,
                    i / b.rows_per_line(),
                    k % size,
                    rs[i][k],
                )
            } else {
                rs[i][k]
            }
        }),
{
    crate::bitmap::lemma_line_bounds(b, i);
    lemma_op7_planes_byte(d, b, item_size(long_data) as int, rs, 0, i, k);
}

/// Byte `q` of word `x` of a plane under the operation-4 ops from byte `oc` on, whose data start
/// at byte `dc`. An op is an offset and a size, of two bytes each or of four: from the word at
/// the offset on, down the scanlines, a negative size gives one data word to as many words, and
/// any other a data word to each. The largest offset ends the ops.
pub open spec fn op4_byte(
    d: Seq<u8>,
    wide: bool,
    size: int,
    nw: int,
    oc: int,
    dc: int,
    x: int,
    q: int,
    was: u8,
) -> u8
    decreases d.len() - oc,
{
    let step = if wide {
        4int
    } else {
        2int
    };
    let start = if wide {
        be32(d, oc) as int
    } else {
        be16(d, oc) as int
    };
    let raw = if wide {
        be32(d, oc + 4) as int
    } else {
        be16(d, oc + 2) as int
    };
    let n = if wide && raw >= 0x8000_0000 {
        raw - 0x1_0000_0000
    } else if !wide && raw >= 0x8000 {
        raw - 0x1_0000
    } else {
        raw
    };
    let down = (x - start) / nw;
    let hit = x >= start && (x - start) % nw == 0;
    if oc + 2 * step > d.len() || wide && start == 0xFFFF_FFFF || !wide && start == 0xFFFF {
        was
    } else if n < 0 {
        op4_byte(
            d,
            wide,
            size,
            nw,
            oc + 2 * step,
            dc + size,
            x,
            q,
            if hit && down < -n {
                d[dc + q]
            } else {
                was
            },
        )
    } else {
        op4_byte(
            d,
            wide,
            size,
            nw,
            oc + 2 * step,
            dc + n * size,
            x,
            q,
            if hit && down < n {
                d[dc + down * size + q]
            } else {
                was
            },
        )
    }
}

/// Which words a vertical run covers.
proof fn lemma_run_covers(nw: int, start: int, line: int, kc: int)
    requires
        0 < nw,
        0 <= start,
        0 <= line,
        0 <= kc < nw,
    ensures
        ({
            let x = line * nw + kc;
            let hit = x >= start && (x - start) % nw == 0;
            &&& hit <==> kc == start % nw && line >= start / nw
            &&& hit ==> (x - start) / nw == line - start / nw
        }),
{
    let x = line * nw + kc;
    let c = start % nw;
    let r = start / nw;
    vstd::arithmetic::div_mod::lemma_fundamental_div_mod(start, nw);
    assert(start == r * nw + c) by (nonlinear_arith)
        requires
            start == nw * r + c,
    ;
    let m = line - r;
    assert(x - start == m * nw + (kc - c)) by (nonlinear_arith)
        requires
            x == line * nw + kc,
            start == r * nw + c,
            m == line - r,
    ;
    if kc >= c {
        vstd::arithmetic::div_mod::lemma_fundamental_div_mod_converse(x - start, nw, m, kc - c);
        assert(m * nw + (kc - c) >= 0 <==> m >= 0) by (nonlinear_arith)
            requires
                0 <= kc - c < nw,
        ;
    } else {
        assert(x - start == (m - 1) * nw + (nw + kc - c)) by (nonlinear_arith)
            requires
                x - start == m * nw + (kc - c),
        ;
        vstd::arithmetic::div_mod::lemma_fundamental_div_mod_converse(
            x - start,
            nw,
            m - 1,
            nw + kc - c,
        );
    }
}

/// The byte that a vertical run leaves.
proof fn lemma_words_byte(
    rs: Seq<Seq<u8>>,
    b: Bmhd,
    p: int,
    size: int,
    start: int,
    items: Seq<Seq<u8>>,
    i: int,
    k: int,
)
    requires
        shaped(rs, b),
        0 <= i < rs.len(),
        0 <= k < b.row_len(),
        size == 2 || size == 4,
        b.row_len() % size == 0,
        0 <= start,
        0 <= line_of(b, i) < b.height,
        forall|j: int| 0 <= j < items.len() ==> (#[trigger] items[j]).len() == size,
    ensures
        ({
            let out = write_words(rs, b, p, size, start, items);
            let nw = b.row_len() / size;
            let x = line_of(b, i) * nw + k / size;
            let down = (x - start) / nw;
            let hit = plane_of(b, i) == p && x >= start && (x - start) % nw == 0;
            &&& shaped(out, b)
            &&& out[i][k] == if hit && down < items.len() {
                items[down][k % size]
            } else {
                rs[i][k]
            }
        }),
{
    let nw = b.row_len() / size;
    let line = line_of(b, i);
    let kc = k / size;
    assert(0 <= kc < nw && kc * size + k % size == k && 0 <= k % size < size) by {
        if size == 2 {
        } else {
        }
    }
    lemma_run_covers(nw, start, line, kc);
    let c = start % nw;
    let at = c * size;
    assert(0 <= c < nw);
    assert(at + size <= b.row_len() && 0 <= at && (at <= k < at + size <==> kc == c)) by {
        if size == 2 {
        } else {
        }
    }
    let out = write_words(rs, b, p, size, start, items);
    assert(shaped(out, b)) by {
        assert forall|m: int| 0 <= m < out.len() implies (#[trigger] out[m]).len() == b.row_len() by {
            assert(rs[m].len() == b.row_len());
        }
    }
    assert(rs[i].len() == b.row_len());
    assert(start / nw >= 0) by (nonlinear_arith)
        requires
            start >= 0,
            nw > 0,
    ;
}

proof fn lemma_op4_list_byte(
    d: Seq<u8>,
    b: Bmhd,
    p: int,
    opts: Op4Options,
    rs: Seq<Seq<u8>>,
    oc: int,
    dc: int,
    i: int,
    k: int,
)
    requires
        shaped(rs, b),
        0 <= i < rs.len(),
        0 <= k < b.row_len(),
        0 <= oc,
        0 <= dc,
        b.row_len() % item_size(opts.long_data) as int == 0,
        0 <= line_of(b, i) < b.height,
        op4_list(d, b, p, opts, rs, oc, dc).1 is Ok,
    ensures
        ({
            let out = op4_list(d, b, p, opts, rs, oc, dc).0;
            let size = item_size(opts.long_data) as int;
            let nw = b.row_len() / size;
            &&& shaped(out, b)
            &&& out[i][k] == if plane_of(b, i) == p {
                op4_byte(
                    d,
                    opts.long_offsets,
                    size,
                    nw,
                    oc,
                    dc,
                    line_of(b, i) * nw + k / size,
                    k % size,
                    rs[i][k],
                )
            } else {
                rs[i][k]
            }
        }),
    decreases d.len() - oc,
{
    let wide = opts.long_offsets;
    let step = item_size(wide) as int;
    let size = item_size(opts.long_data) as int;
    let nw = b.row_len() / size;
    let start = op4_field(d, wide, oc) as int;
    let n = op4_size(wide, op4_field(d, wide, oc + step));
    let x = line_of(b, i) * nw + k / size;
    let q = k % size;
    let down = (x - start) / nw;
    assert(0 <= q < size);
    assert(nw > 0);
    if oc + 2 * step <= d.len() && start != op4_end(wide) {
        if n < 0 {
            let items = items_in(d, dc, size, 0, -n);
            assert forall|j: int| 0 <= j < items.len() implies (#[trigger] items[j]).len() == size
                && items[j] == d.subrange(dc, dc + size) by {
                assert(j * 0 == 0);
            }
            lemma_words_byte(rs, b, p, size, start, items, i, k);
            let next = write_words(rs, b, p, size, start, items);
            lemma_op4_list_byte(d, b, p, opts, next, oc + 2 * step, dc + size, i, k);
            if x >= start && down < -n {
                assert(down >= 0) by (nonlinear_arith)
                    requires
                        x >= start,
                        nw > 0,
                        down == (x - start) / nw,
                ;
                assert(items[down] == d.subrange(dc, dc + size));
            }
        } else {
            let items = items_in(d, dc, size, size, n);
            assert(n * size >= 0) by (nonlinear_arith)
                requires
                    n >= 0,
                    size > 0,
            ;
            assert forall|j: int| 0 <= j < items.len() implies (#[trigger] items[j]).len() == size
                && items[j] == d.subrange(dc + j * size, dc + j * size + size) by {
                assert(0 <= j * size && j * size + size <= n * size) by (nonlinear_arith)
                    requires
                        0 <= j < n,
                        size > 0,
                ;
            }
            lemma_words_byte(rs, b, p, size, start, items, i, k);
            let next = write_words(rs, b, p, size, start, items);
            lemma_op4_list_byte(d, b, p, opts, next, oc + 2 * step, dc + n * size, i, k);
            if x >= start && down < n {
                assert(down >= 0) by (nonlinear_arith)
                    requires
                        x >= start,
                        nw > 0,
                        down == (x - start) / nw,
                ;
                assert(items[down] == d.subrange(dc + down * size, dc + down * size + size));
            }
        }
    }
}

proof fn lemma_op4_planes_byte(
    d: Seq<u8>,
    b: Bmhd,
    opts: Op4Options,
    rs: Seq<Seq<u8>>,
    p: int,
    i: int,
    k: int,
)
    requires
        shaped(rs, b),
        0 <= i < rs.len(),
        0 <= k < b.row_len(),
        0 <= p,
        b.row_len() % item_size(opts.long_data) as int == 0,
        0 <= line_of(b, i) < b.height,
        op4_planes(d, b, opts, rs, p).1 is Ok,
    ensures
        ({
            let out = op4_planes(d, b, opts, rs, p).0;
            let g = plane_of(b, i);
            let size = item_size(opts.long_data) as int;
            let nw = b.row_len() / size;
            &&& out.len() == rs.len()
            &&& out[i].len() == rs[i].len()
            &&& out[i][k] == if p <= g < addressed_planes(b) && be32(d, 4 * (8 + g)) != 0 {
                op4_byte(
                    d,
                    opts.long_offsets,
                    size,
                    nw,
                    2 * be32(d, 4 * (8 + g)),
                    2 * be32(d, 4 * g),
                    line_of(b, i) * nw + k / size,
                    k % size,
                    rs[i][k],
                )
            } else {
                rs[i][k]
            }
        }),
    decreases addressed_planes(b) - p,
{
    if p < addressed_planes(b) {
        let data = 2 * be32(d, 4 * p);
        let ops = 2 * be32(d, 4 * (8 + p));
        if ops == 0 {
            lemma_op4_planes_byte(d, b, opts, rs, p + 1, i, k);
        } else {
            lemma_op4_list_byte(d, b, p, opts, rs, ops, data, i, k);
            let next = op4_list(d, b, p, opts, rs, ops, data).0;
            lemma_op4_planes_byte(d, b, opts, next, p + 1, i, k);
        }
    }
}

/// Where an operation-4 payload can be applied, the byte of every colour plane that its table
/// has ops for is what they make of it, and all other bytes stay. The first eight pointers are
/// those to data, the next eight those to ops, and both count 16-bit words. Bit 0 of the options
/// makes data words four bytes wide instead of two, bit 5 the fields of an op.
pub proof fn law_op4_bytes(d: Seq<u8>, b: Bmhd, rs: Seq<Seq<u8>>, bits: u32, i: int, k: int)
    requires
        shaped(rs, b),
        0 <= i < rs.len(),
        0 <= k < b.row_len(),
        op4_applied(d, b, rs, bits).1 is Ok,
    ensures
        bits < 64,
        bits / 2 % 2 == 0,
        bits / 8 % 2 == 1,
        bits / 16 % 2 == 1,
        ({
            let out = op4_applied(d, b, rs, bits).0;
            let size = if bits % 2 == 1 {
                4int
            } else {
                2int
            };
            let p = i % b.rows_per_line();
            let nw = b.row_len() / size;
            let data = 2 * be32(d, 4 * p);
            let ops = 2 * be32(d, 32 + 4 * p);
            &&& out.len() == rs.len()
            &&& out[i].len() == rs[i].len()
            &&& out[i][k] == if p < b.n_planes && p < 8 && ops != 0 {
                op4_byte(
                    d,
                    bits / 32 % 2 == 1,
                    size,
                    nw,
                    ops,
                    data,
                    i / b.rows_per_line() * nw + k / size,
                    k % size,
                    rs[i][k],
                )
            } else {
                rs[i][k]
            }
        }),
{
    crate::bitmap::lemma_line_bounds(b, i);
    lemma_op4_planes_byte(d, b, op4_options(bits)->Ok_0, rs, 0, i, k);
}

/// Byte `z` of a plane under the operation-2 or -3 groups from byte `c` on, the cursor being at
/// word `w`. An offset below 32768 moves the cursor on and is followed by the word to put there.
/// Any other but the largest moves it on by two less than it lacks to 65536, and is followed by
/// a count and that many words to put there; the cursor stays on the last. The largest ends the
/// groups.
pub open spec fn op23_byte(d: Seq<u8>, size: int, c: int, w: int, z: int, was: u8) -> u8
    decreases d.len() - c,
{
    let o = be16(d, c) as int;
    if c + 2 > d.len() || o == 0xFFFF {
        was
    } else if o < 0x8000 {
        let from = (w + o) * size;
        if c + 2 + size > d.len() || size <= 0 {
            was
        } else {
            op23_byte(
                d,
                size,
                c + 2 + size,
                w + o,
                z,
                if from <= z < from + size {
                    d[c + 2 + (z - from)]
                } else {
                    was
                },
            )
        }
    } else {
        let n = be16(d, c + 2) as int;
        let to = w + (0xFFFE - o);
        let from = to * size;
        if c + 4 + n * size > d.len() || n * size < 0 {
            was
        } else {
            op23_byte(
                d,
                size,
                c + 4 + n * size,
                to + n - 1,
                z,
                if from <= z < from + n * size {
                    d[c + 4 + (z - from)]
                } else {
                    was
                },
            )
        }
    }
}

proof fn lemma_op23_groups_byte(d: Seq<u8>, size: int, buf: Seq<u8>, c: int, w: int, z: int)
    requires
        size == 2 || size == 4,
        0 <= c,
        0 <= w,
        0 <= z < buf.len(),
        op23_groups(d, size, buf, c, w).1 is Ok,
    ensures
        op23_groups(d, size, buf, c, w).0.len() == buf.len(),
        op23_groups(d, size, buf, c, w).0[z] == op23_byte(d, size, c, w, z, buf[z]),
    decreases d.len() - c,
{
    let o = be16(d, c) as int;
    if o == 0xFFFF {
    } else if o < 0x8000 {
        let to = w + o;
        let next = splice(buf, to * size, d.subrange(c + 2, c + 2 + size));
        assert(to * size >= 0) by (nonlinear_arith)
            requires
                to >= 0,
                size > 0,
        ;
        lemma_op23_groups_byte(d, size, next, c + 2 + size, to, z);
    } else {
        let n = be16(d, c + 2) as int;
        let to = w + (0x1_0000 - o) - 2;
        let next = splice(buf, to * size, d.subrange(c + 4, c + 4 + n * size));
        assert(to * size >= 0) by (nonlinear_arith)
            requires
                to >= 0,
                size > 0,
        ;
        lemma_op23_groups_byte(d, size, next, c + 4 + n * size, to + n - 1, z);
    }
}

/// Where the bytes of a row lie in its plane.
proof fn lemma_plane_byte(rs: Seq<Seq<u8>>, b: Bmhd, p: int, buf: Seq<u8>, i: int, k: int)
    requires
        shaped(rs, b),
        0 <= i < rs.len(),
        0 <= k < b.row_len(),
        0 <= p < b.n_planes,
        buf.len() == b.height * b.row_len(),
    ensures
        ({
            let z = line_of(b, i) * b.row_len() + k;
            &&& 0 <= z < b.height * b.row_len()
            &&& plane_bytes(rs, b, p).len() == b.height * b.row_len()
            &&& plane_of(b, i) == p ==> plane_bytes(rs, b, p)[z] == rs[i][k]
            &&& shaped(with_plane(rs, b, p, buf), b)
            &&& with_plane(rs, b, p, buf)[i][k] == if plane_of(b, i) == p {
                buf[z]
            } else {
                rs[i][k]
            }
        }),
{
    crate::bitmap::lemma_line_bounds(b, i);
    let y = line_of(b, i);
    let w = b.row_len();
    let h = b.height as int;
    let z = y * w + k;
    assert(0 <= y * w && y * w + w <= h * w) by (nonlinear_arith)
        requires
            0 <= y < h,
            0 <= w,
    ;
    lemma_has_plane(rs, b, p);
    lemma_plane_len(rs, b, p);
    let items = plane_rows(rs, b, p);
    lemma_flat_item(items, 0, h, w, y);
    if plane_of(b, i) == p {
        assert(items[y] == rs[i]);
        assert(plane_bytes(rs, b, p).subrange(y * w, y * w + w)[k] == plane_bytes(rs, b, p)[z]);
    }
    let fresh = items_in(buf, 0, w, w, h);
    assert(fresh[y] == buf.subrange(y * w, y * w + w));
    let out = with_plane(rs, b, p, buf);
    assert(shaped(out, b)) by {
        assert forall|m: int| 0 <= m < out.len() implies (#[trigger] out[m]).len() == w by {
            assert(rs[m].len() == w);
        }
    }
    assert(rs[i].len() == w);
}

proof fn lemma_op23_planes_byte(
    d: Seq<u8>,
    b: Bmhd,
    size: int,
    rs: Seq<Seq<u8>>,
    p: int,
    i: int,
    k: int,
)
    requires
        shaped(rs, b),
        0 <= i < rs.len(),
        0 <= k < b.row_len(),
        size == 2 || size == 4,
        0 <= p,
        op23_planes(d, b, size, rs, p).1 is Ok,
    ensures
        ({
            let out = op23_planes(d, b, size, rs, p).0;
            let g = plane_of(b, i);
            &&& out.len() == rs.len()
            &&& out[i].len() == rs[i].len()
            &&& out[i][k] == if p <= g < addressed_planes(b) && be32(d, 4 * g) != 0 {
                op23_byte(
                    d,
                    size,
                    be32(d, 4 * g) as int,
                    0,
                    line_of(b, i) * b.row_len() + k,
                    rs[i][k],
                )
            } else {
                rs[i][k]
            }
        }),
    decreases addressed_planes(b) - p,
{
    if p < addressed_planes(b) {
        let from = be32(d, 4 * p) as int;
        if from == 0 {
            lemma_op23_planes_byte(d, b, size, rs, p + 1, i, k);
        } else {
            let was = plane_bytes(rs, b, p);
            let z = line_of(b, i) * b.row_len() + k;
            lemma_has_plane(rs, b, p);
            lemma_plane_len(rs, b, p);
            lemma_plane_byte(rs, b, p, was, i, k);
            lemma_op23_groups_byte(d, size, was, from, 0, z);
            let buf = op23_groups(d, size, was, from, 0).0;
            lemma_plane_byte(rs, b, p, buf, i, k);
            let next = with_plane(rs, b, p, buf);
            lemma_op23_planes_byte(d, b, size, next, p + 1, i, k);
        }
    }
}

/// Where an operation-2 payload, of words of four bytes, or an operation-3 payload, of two, can
/// be applied, the byte of every colour plane that its table points to is what its groups make of
/// it, and all other bytes stay. A plane is one string of words, row after row.
pub proof fn law_op23_bytes(
    d: Seq<u8>,
    b: Bmhd,
    rs: Seq<Seq<u8>>,
    long_data: bool,
    i: int,
    k: int,
)
    requires
        shaped(rs, b),
        0 <= i < rs.len(),
        0 <= k < b.row_len(),
        op23_applied(d, b, rs, long_data).1 is Ok,
    ensures
        ({
            let out = op23_applied(d, b, rs, long_data).0;
            let size = if long_data {
                4int
            } else {
                2int
            };
            let p = i % b.rows_per_line();
            let from = be32(d, 4 * p) as int;
            &&& out.len() == rs.len()
            &&& out[i].len() == rs[i].len()
            &&& out[i][k] == if p < b.n_planes && p < 8 && from != 0 {
                op23_byte(
                    d,
                    size,
                    from,
                    0,
                    i / b.rows_per_line() * b.row_len() + k,
                    rs[i][k],
                )
            } else {
                rs[i][k]
            }
        }),
{
    crate::bitmap::lemma_line_bounds(b, i);
    lemma_op23_planes_byte(d, b, item_size(long_data) as int, rs, 0, i, k);
}

/// A delta frame is applied as the operation of its header says. An operation that is not known
/// leaves the bitmap alone and is refused.
pub proof fn law_delta_operation(a: Anhd, d: Seq<u8>, b: Bmhd, rs: Seq<Seq<u8>>)
    ensures
        a.operation == 1 ==> delta_applied(a, d, b, rs) == op1_applied(a, d, b, rs),
        a.operation == 2 ==> delta_applied(a, d, b, rs) == op23_applied(d, b, rs, true),
        a.operation == 3 ==> delta_applied(a, d, b, rs) == op23_applied(d, b, rs, false),
        a.operation == 4 ==> delta_applied(a, d, b, rs) == op4_applied(d, b, rs, a.bits),
        a.operation == 5 ==> delta_applied(a, d, b, rs) == op5_applied(d, b, rs),
        a.operation == 7 && a.bits % 2 == 1 ==> delta_applied(a, d, b, rs) == op7_applied(
            d,
            b,
            rs,
            true,
        ),
        a.operation == 7 && a.bits % 2 == 0 ==> delta_applied(a, d, b, rs) == op7_applied(
            d,
            b,
            rs,
            false,
        ),
        a.operation == 6 || a.operation > 7 ==> {
            &&& delta_applied(a, d, b, rs).0 == rs
            &&& delta_applied(a, d, b, rs).1 matches Err(IffError::Unsupported(_))
        },
{
    reveal(delta_applied);
}

proof fn lemma_plain_rows(
    d: Seq<u8>,
    at: int,
    b: Bmhd,
    short: &'static str,
    rs: Seq<Seq<u8>>,
    j: int,
    i: int,
)
    requires
        b.compression == Compression::Uncompressed,
        rs.len() == b.height * b.rows_per_line(),
        0 <= j <= rs.len(),
        0 <= i < rs.len(),
        at == j * b.row_len(),
        rs.len() * b.row_len() <= d.len(),
    ensures
        rows_replaced(d, at, b, short, rs, j).1 is Ok,
        rows_replaced(d, at, b, short, rs, j).0.len() == rs.len(),
        rows_replaced(d, at, b, short, rs, j).0[i] == if i >= j {
            d.subrange(i * b.row_len(), i * b.row_len() + b.row_len())
        } else {
            rs[i]
        },
    decreases rs.len() - j,
{
    if j < rs.len() {
        let w = b.row_len();
        let n = rs.len() as int;
        assert((j + 1) * w == j * w + w && (j + 1) * w <= n * w) by (nonlinear_arith)
            requires
                j + 1 <= n,
                w >= 0,
        ;
        let next = rs.update(j, d.subrange(at, at + w));
        lemma_plain_rows(d, at + w, b, short, next, j + 1, i);
    }
}

/// Operation 0 replaces all rows by those of the payload, one after another, where the payload
/// has them all; otherwise nothing changes. So it is for a payload that is not compressed.
pub proof fn law_op0_rows(a: Anhd, d: Seq<u8>, b: Bmhd, rs: Seq<Seq<u8>>)
    requires
        a.operation == 0,
        b.compression == Compression::Uncompressed,
        rs.len() == b.height * b.rows_per_line(),
    ensures
        ({
            let (out, r) = delta_applied(a, d, b, rs);
            &&& r is Ok <==> d.len() >= rs.len() * b.row_len()
            &&& r is Err ==> out == rs
            &&& r is Ok ==> out.len() == rs.len() && forall|i: int|
                0 <= i < rs.len() ==> #[trigger] out[i] == d.subrange(
                    i * b.row_len(),
                    i * b.row_len() + b.row_len(),
                )
        }),
{
    reveal(delta_applied);
    let (out, r) = delta_applied(a, d, b, rs);
    assert(0 * b.row_len() == 0) by (nonlinear_arith);
    if d.len() >= rs.len() * b.row_len() {
        if rs.len() > 0 {
            lemma_plain_rows(d, 0, b, "ANIM op 0: short BODY", rs, 0, 0);
        }
        assert forall|i: int| 0 <= i < rs.len() implies #[trigger] out[i] == d.subrange(
            i * b.row_len(),
            i * b.row_len() + b.row_len(),
        ) by {
            lemma_plain_rows(d, 0, b, "ANIM op 0: short BODY", rs, 0, i);
        }
    }
}

} // verus!
