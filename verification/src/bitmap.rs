//! The planar bitmap that delta frames modify.
//!
//! A bitmap is a list of rows in IFF order: the rows of scanline 0 plane by
//! plane (the mask row last, if there is one), then those of scanline 1, and
//! so on.

use vstd::prelude::*;
use crate::ilbm::Bmhd;
use vstd::arithmetic::div_mod::{lemma_fundamental_div_mod, lemma_fundamental_div_mod_converse};

verus! {

/// The bytes of every row.
pub open spec fn rows(v: Seq<Vec<u8>>) -> Seq<Seq<u8>> {
    Seq::new(v.len(), |i: int| v[i]@)
}

/// Index of the row that scanline `y` stores for plane `k`.
pub open spec fn row_index(b: Bmhd, y: int, k: int) -> int {
    y * b.rows_per_line() + k
}

/// Scanline that the row at index `i` belongs to.
pub open spec fn line_of(b: Bmhd, i: int) -> int {
    i / b.rows_per_line()
}

/// Plane that the row at index `i` belongs to.
pub open spec fn plane_of(b: Bmhd, i: int) -> int {
    i % b.rows_per_line()
}

/// `row` with `item` written over it from byte `at` on.
pub open spec fn splice(row: Seq<u8>, at: int, item: Seq<u8>) -> Seq<u8> {
    Seq::new(
        row.len(),
        |c: int|
            if at <= c < at + item.len() {
                item[c - at]
            } else {
                row[c]
            },
    )
}

/// A vertical run: `items[j]` written at byte `at` of plane `p` in scanline
/// `row + j`. Scanlines below the bottom edge, and rows too short to hold the
/// item, are left as they are.
pub open spec fn write_run(
    rs: Seq<Seq<u8>>,
    b: Bmhd,
    p: int,
    at: int,
    row: int,
    items: Seq<Seq<u8>>,
) -> Seq<Seq<u8>> {
    Seq::new(
        rs.len(),
        |i: int|
            if plane_of(b, i) == p && row <= line_of(b, i) < row + items.len() && line_of(b, i)
                < b.height && at + items[line_of(b, i) - row].len() <= rs[i].len() {
                splice(rs[i], at, items[line_of(b, i) - row])
            } else {
                rs[i]
            },
    )
}

/// `count` items of `size` bytes, the first at byte `from` of `src` and each
/// next one `step` bytes further.
pub open spec fn items_in(src: Seq<u8>, from: int, size: int, step: int, count: int) -> Seq<
    Seq<u8>,
> {
    Seq::new(
        count as nat,
        |j: int| src.subrange(from + j * step, from + j * step + size),
    )
}

/// The row cursor after moving down by `n`: it stops at the bottom edge.
pub open spec fn advance(b: Bmhd, row: int, n: int) -> int {
    if row + n >= b.height {
        b.height as int
    } else {
        row + n
    }
}

/// A row index names exactly one scanline and plane.
pub proof fn lemma_row_index(b: Bmhd, i: int, y: int, k: int)
    requires
        0 <= i,
        0 <= k < b.rows_per_line(),
    ensures
        (line_of(b, i) == y && plane_of(b, i) == k) <==> i == row_index(b, y, k),
        0 <= plane_of(b, i) < b.rows_per_line(),
{
    let n = b.rows_per_line();
    lemma_fundamental_div_mod(i, n);
    if i == row_index(b, y, k) {
        lemma_fundamental_div_mod_converse(i, n, y, k);
    } else if line_of(b, i) == y && plane_of(b, i) == k {
        assert(n * y == y * n) by (nonlinear_arith);
    }
}

/// Every scanline's rows lie inside the bitmap.
pub proof fn lemma_row_bounds(b: Bmhd, y: int, k: int)
    requires
        0 <= y < b.height,
        0 <= k < b.rows_per_line(),
    ensures
        0 <= row_index(b, y, k) < b.height * b.rows_per_line(),
{
    let n = b.rows_per_line();
    let h = b.height as int;
    assert(y * n + k < h * n) by (nonlinear_arith)
        requires
            0 <= y < h,
            0 <= k < n,
    ;
    assert(0 <= y * n) by (nonlinear_arith)
        requires
            0 <= y,
            0 < n,
    ;
}

/// The row at an index of the bitmap lies on one of its scanlines.
pub proof fn lemma_line_bounds(b: Bmhd, i: int)
    requires
        0 <= i < b.height * b.rows_per_line(),
    ensures
        0 < b.rows_per_line(),
        0 <= line_of(b, i) < b.height,
        0 <= plane_of(b, i) < b.rows_per_line(),
        row_index(b, line_of(b, i), plane_of(b, i)) == i,
{
    let n = b.rows_per_line();
    let h = b.height as int;
    assert(0 < n) by {
        if n == 0 {
            assert(h * n == 0) by (nonlinear_arith)
                requires
                    n == 0,
            ;
        }
    }
    lemma_fundamental_div_mod(i, n);
    let q = i / n;
    let r = i % n;
    assert(0 <= q < h) by (nonlinear_arith)
        requires
            i == n * q + r,
            0 <= r < n,
            0 <= i < h * n,
    ;
    assert(n * q == q * n) by (nonlinear_arith);
}

/// The bitmap has a row of the right width for every plane of every scanline.
pub open spec fn shaped(rs: Seq<Seq<u8>>, b: Bmhd) -> bool {
    &&& rs.len() == b.height * b.rows_per_line()
    &&& forall|i: int| 0 <= i < rs.len() ==> (#[trigger] rs[i]).len() == b.row_len()
}

/// The planes below `p` of `cur` and all others of `prev`.
pub open spec fn merged(prev: Seq<Seq<u8>>, cur: Seq<Seq<u8>>, b: Bmhd, p: int) -> Seq<Seq<u8>> {
    Seq::new(
        prev.len(),
        |i: int|
            if plane_of(b, i) < p {
                cur[i]
            } else {
                prev[i]
            },
    )
}

/// A run written in two parts.
pub proof fn lemma_write_run_join(
    rs: Seq<Seq<u8>>,
    b: Bmhd,
    p: int,
    at: int,
    size: int,
    row: int,
    mid: int,
    end: int,
    items: Seq<Seq<u8>>,
)
    requires
        items.len() == b.height,
        forall|k: int| 0 <= k < items.len() ==> (#[trigger] items[k]).len() == size,
        0 <= row <= mid <= end <= b.height,
    ensures
        write_run(
            write_run(rs, b, p, at, row, items.subrange(row, mid)),
            b,
            p,
            at,
            mid,
            items.subrange(mid, end),
        ) == write_run(rs, b, p, at, row, items.subrange(row, end)),
{
    let first = write_run(rs, b, p, at, row, items.subrange(row, mid));
    let twice = write_run(first, b, p, at, mid, items.subrange(mid, end));
    let once = write_run(rs, b, p, at, row, items.subrange(row, end));
    assert forall|i: int| 0 <= i < rs.len() implies twice[i] == once[i] by {
        let y = line_of(b, i);
        if plane_of(b, i) == p && row <= y < end {
            assert(items[y].len() == size);
            if y < mid {
                assert(items.subrange(row, mid)[y - row] == items[y]);
            } else {
                assert(items.subrange(mid, end)[y - mid] == items[y]);
            }
            assert(items.subrange(row, end)[y - row] == items[y]);
        }
    }
    assert(twice =~= once);
}

/// Moves the row cursor down.
pub fn step_down(b: &Bmhd, row: usize, n: usize) -> (r: usize)
    requires
        row <= b.height,
    ensures
        r == advance(*b, row as int, n as int),
        r <= b.height,
{
    let height: usize = b.height as usize;
    if n >= height - row {
        height
    } else {
        row + n
    }
}

/// Writes one item into a row, if the row is there and long enough.
fn put_item(planar: &mut [Vec<u8>], i: usize, at: usize, src: &[u8], from: usize, size: usize)
    requires
        from + size <= src@.len(),
        at + size <= usize::MAX,
    ensures
        final(planar)@.len() == old(planar)@.len(),
        forall|k: int|
            0 <= k < old(planar)@.len() && k != i ==> final(planar)@[k] == old(planar)@[k],
        i < old(planar)@.len() ==> final(planar)@[i as int]@ == if at + size <= old(
            planar,
        )@[i as int]@.len() {
            splice(
                old(planar)@[i as int]@,
                at as int,
                src@.subrange(from as int, from + size),
            )
        } else {
            old(planar)@[i as int]@
        },
{
    if i < planar.len() && at + size <= planar[i].len() {
        let ghost before = planar@;
        let total: usize = src.len();
        let mut c: usize = 0;
        while c < size
            invariant
                c <= size,
                at + size <= usize::MAX,
                total == src@.len(),
                i < planar@.len(),
                planar@.len() == before.len(),
                planar@[i as int]@.len() == before[i as int]@.len(),
                at + size <= before[i as int]@.len(),
                from + size <= src@.len(),
                forall|k: int| 0 <= k < before.len() && k != i ==> planar@[k] == before[k],
                planar@[i as int]@ == splice(
                    before[i as int]@,
                    at as int,
                    src@.subrange(from as int, from + c),
                ),
            decreases size - c,
        {
            planar[i][at + c] = src[from + c];
            c += 1;
            assert(planar@[i as int]@ =~= splice(
                before[i as int]@,
                at as int,
                src@.subrange(from as int, from + c),
            ));
        }
    }
}

/// Writes a vertical run of `count` items taken from `src`.
pub fn write_items(
    planar: &mut [Vec<u8>],
    b: &Bmhd,
    p: usize,
    at: usize,
    row: usize,
    src: &[u8],
    from: usize,
    size: usize,
    step: usize,
    count: usize,
)
    requires
        p < b.rows_per_line(),
        at + size <= usize::MAX,
        size <= 0x2000,
        step == 0 || step == size,
        count <= 0xFFFF,
        from + size <= src@.len() || count == 0,
        step != 0 ==> from + count * step <= src@.len(),
    ensures
        rows(final(planar)@) == write_run(
            rows(old(planar)@),
            *b,
            p as int,
            at as int,
            row as int,
            items_in(src@, from as int, size as int, step as int, count as int),
        ),
{
    let height: usize = b.height as usize;
    let n: usize = b.planes_per_row();
    let ghost items = items_in(src@, from as int, size as int, step as int, count as int);
    let ghost before = rows(planar@);
    let total: usize = src.len();
    let mut j: usize = 0;
    while j < count && row < height && j < height - row
        invariant
            j <= count,
            total == src@.len(),
            height == b.height,
            n == b.rows_per_line(),
            n <= 256,
            p < n,
            at + size <= usize::MAX,
            size <= 0x2000,
            step == 0 || step == size,
            count <= 0xFFFF,
            from + size <= src@.len() || count == 0,
            step != 0 ==> from + count * step <= src@.len(),
            items == items_in(src@, from as int, size as int, step as int, count as int),
            rows(planar@) == write_run(
                before,
                *b,
                p as int,
                at as int,
                row as int,
                items.take(j as int),
            ),
        decreases count - j,
    {
        let y: usize = row + j;
        assert(y * n <= 0xFFFF * 0x100) by (nonlinear_arith)
            requires
                y <= 0xFFFF,
                n <= 0x100,
        ;
        assert(j * step + size <= count * step || step == 0) by (nonlinear_arith)
            requires
                j < count,
                step == 0 || step == size,
        ;
        assert(step == 0 ==> j * step == 0) by (nonlinear_arith);
        assert(0 <= j * step) by (nonlinear_arith);
        let i: usize = y * n + p;
        let start: usize = from + j * step;
        let ghost mid = rows(planar@);
        assert(mid.len() == before.len());
        let ghost old_rows = planar@;
        put_item(planar, i, at, src, start, size);
        proof {
            let item = src@.subrange(start as int, start + size);
            assert(items[j as int] == item);
            let done = items.take(j as int);
            let more = items.take(j + 1);
            assert(more =~= done.push(item));
            assert forall|k: int| 0 <= k < before.len() implies #[trigger] rows(planar@)[k]
                == write_run(before, *b, p as int, at as int, row as int, more)[k] by {
                lemma_row_index(*b, k, y as int, p as int);
                assert(mid[k] == write_run(before, *b, p as int, at as int, row as int, done)[k]);
                assert(mid[k] == old_rows[k]@);
                if k == i {
                    assert(mid[k] == before[k]);
                }
            }
            assert(rows(planar@) =~= write_run(
                before,
                *b,
                p as int,
                at as int,
                row as int,
                more,
            ));
        }
        j += 1;
    }
    proof {
        assert forall|k: int| 0 <= k < before.len() implies #[trigger] write_run(
            before,
            *b,
            p as int,
            at as int,
            row as int,
            items.take(j as int),
        )[k] == write_run(before, *b, p as int, at as int, row as int, items)[k] by {}
        assert(rows(planar@) =~= write_run(
            before,
            *b,
            p as int,
            at as int,
            row as int,
            items,
        ));
    }
}

} // verus!
