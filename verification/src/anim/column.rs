//! Splitting a changed column of a bitplane into runs.
//!
//! A column is a stack of equally wide items, one per scanline. Seen from the
//! previous frame each item has changed or not; the encoders cover the column
//! from top to bottom with runs of unchanged items, runs of one repeated item,
//! and runs of items taken literally.

use vstd::prelude::*;
use crate::bitmap::{
    items_in, lemma_line_bounds, lemma_row_bounds, lemma_row_index, line_of, merged, plane_of,
    row_index, rows, shaped, splice, write_run,
};
use crate::bytes::{lemma_lies_byte, lies_at};
use crate::ilbm::Bmhd;

verus! {

/// What a run of a column holds.
#[derive(Clone, Copy, Debug, PartialEq, Eq, Structural)]
pub enum RunKind {
    /// Items that have not changed.
    Skip,
    /// Changed items that are all alike.
    Same,
    /// Changed items stored one by one.
    Uniq,
}

/// When a repeated item is worth a run of its own, and how long runs may get.
#[derive(Clone, Copy, Debug, PartialEq, Eq, Structural)]
pub struct RunRules {
    /// Fewest equal items that make a `Same` run.
    pub same_min: usize,
    /// Most items in a `Same` run.
    pub same_max: usize,
    /// Most items in a `Uniq` run.
    pub uniq_max: usize,
}

impl RunRules {
    /// The limits leave room for progress.
    pub open spec fn valid(self) -> bool {
        2 <= self.same_min <= self.same_max && 1 <= self.uniq_max
    }
}

/// The items of a column.
pub open spec fn column_items(rs: Seq<Seq<u8>>, b: Bmhd, p: int, at: int, size: int) -> Seq<
    Seq<u8>,
> {
    Seq::new(
        b.height as nat,
        |y: int| rs[row_index(b, y, p)].subrange(at, at + size),
    )
}

/// Which items of a column differ between two bitmaps. An item that the
/// earlier bitmap has no room for counts as changed.
pub open spec fn column_changed(
    prev: Seq<Seq<u8>>,
    cur: Seq<Seq<u8>>,
    b: Bmhd,
    p: int,
    at: int,
    size: int,
) -> Seq<bool> {
    Seq::new(
        b.height as nat,
        |y: int|
            {
                let i = row_index(b, y, p);
                at + size > prev[i].len() || prev[i].subrange(at, at + size) != cur[i].subrange(
                    at,
                    at + size,
                )
            },
    )
}

/// First row at or below `j` that has changed, or the bottom edge.
pub open spec fn skip_end(ch: Seq<bool>, j: int) -> int
    decreases ch.len() - j,
{
    if j < ch.len() && !ch[j] {
        skip_end(ch, j + 1)
    } else {
        j
    }
}

/// Where the repetition of row `i`'s item ends that reaches at least to `j`.
pub open spec fn same_end(ch: Seq<bool>, items: Seq<Seq<u8>>, i: int, j: int, most: int) -> int
    decreases ch.len() - j,
{
    if j < ch.len() && ch[j] && j - i < most && items[j] == items[i] {
        same_end(ch, items, i, j + 1, most)
    } else {
        j
    }
}

/// Whether `n` equal changed items start at row `j`.
pub open spec fn repeats(ch: Seq<bool>, items: Seq<Seq<u8>>, j: int, n: int) -> bool {
    &&& j + n <= ch.len()
    &&& forall|k: int| j <= k < j + n ==> ch[k]
    &&& forall|k: int| j <= k < j + n ==> #[trigger] items[k] == items[j]
}

/// Where the literal run ends that starts at row `i` and reaches at least to `j`.
pub open spec fn uniq_end(
    ch: Seq<bool>,
    items: Seq<Seq<u8>>,
    i: int,
    j: int,
    same_min: int,
    most: int,
) -> int
    decreases ch.len() - j,
{
    if j < ch.len() && ch[j] && j - i < most && !repeats(ch, items, j, same_min) {
        uniq_end(ch, items, i, j + 1, same_min, most)
    } else {
        j
    }
}

/// The run that starts at row `i`: its kind and its end.
pub open spec fn next_run(ch: Seq<bool>, items: Seq<Seq<u8>>, rules: RunRules, i: int) -> (
    RunKind,
    int,
) {
    if !ch[i] {
        (RunKind::Skip, skip_end(ch, i))
    } else {
        let same = same_end(ch, items, i, i + 1, rules.same_max as int);
        if same - i >= rules.same_min {
            (RunKind::Same, same)
        } else {
            (
                RunKind::Uniq,
                uniq_end(ch, items, i, i + 1, rules.same_min as int, rules.uniq_max as int),
            )
        }
    }
}

/// Whether a column has changed at all.
pub open spec fn column_dirty(ch: Seq<bool>) -> bool {
    exists|y: int| 0 <= y < ch.len() && ch[y]
}

/// The items `from..to` one after another.
pub open spec fn flat_items(items: Seq<Seq<u8>>, from: int, to: int) -> Seq<u8>
    decreases to - from,
{
    if to <= from {
        Seq::empty()
    } else {
        flat_items(items, from, to - 1) + items[to - 1]
    }
}

/// Ops that skip `n` rows, at most 127 each.
pub open spec fn skip_ops(n: int) -> Seq<u8>
    decreases n,
{
    if n <= 0 {
        Seq::empty()
    } else if n > 0x7F {
        seq![0x7Fu8] + skip_ops(n - 0x7F)
    } else {
        seq![n as u8]
    }
}

/// Whether plane `p` has changed, seen in columns of `size` bytes.
pub open spec fn plane_dirty(
    prev: Seq<Seq<u8>>,
    cur: Seq<Seq<u8>>,
    b: Bmhd,
    p: int,
    size: int,
) -> bool {
    exists|at: int|
        0 <= at && at + size <= b.row_len() && at % size == 0 && column_dirty(
            #[trigger] column_changed(prev, cur, b, p, at, size),
        )
}

/// Every colour-plane row holds at least a row's bytes.
pub open spec fn holds_colour(rs: Seq<Seq<u8>>, b: Bmhd) -> bool {
    forall|i: int|
        0 <= i < rs.len() && plane_of(b, i) < b.n_planes ==> b.row_len() <= #[trigger] rs[i].len()
}

/// Every row of plane `p` is there and holds at least `width` bytes.
pub open spec fn holds_plane(rs: Seq<Seq<u8>>, b: Bmhd, p: int, width: int) -> bool {
    &&& rs.len() == b.height * b.rows_per_line()
    &&& forall|i: int|
        0 <= i < rs.len() && plane_of(b, i) == p ==> width <= #[trigger] rs[i].len()
}

proof fn lemma_skip_end(ch: Seq<bool>, j: int)
    requires
        0 <= j <= ch.len(),
    ensures
        j <= skip_end(ch, j) <= ch.len(),
        forall|k: int| j <= k < skip_end(ch, j) ==> !ch[k],
        j < ch.len() && !ch[j] ==> j < skip_end(ch, j),
    decreases ch.len() - j,
{
    if j < ch.len() && !ch[j] {
        lemma_skip_end(ch, j + 1);
    }
}

proof fn lemma_same_end(ch: Seq<bool>, items: Seq<Seq<u8>>, i: int, j: int, most: int)
    requires
        0 <= i < j <= ch.len(),
        j - i <= most,
    ensures
        j <= same_end(ch, items, i, j, most) <= ch.len(),
        same_end(ch, items, i, j, most) - i <= most,
        forall|k: int| j <= k < same_end(ch, items, i, j, most) ==> ch[k],
        forall|k: int|
            j <= k < same_end(ch, items, i, j, most) ==> #[trigger] items[k] == items[i],
    decreases ch.len() - j,
{
    if j < ch.len() && ch[j] && j - i < most && items[j] == items[i] {
        lemma_same_end(ch, items, i, j + 1, most);
    }
}

proof fn lemma_uniq_end(
    ch: Seq<bool>,
    items: Seq<Seq<u8>>,
    i: int,
    j: int,
    same_min: int,
    most: int,
)
    requires
        0 <= i < j <= ch.len(),
        j - i <= most,
    ensures
        j <= uniq_end(ch, items, i, j, same_min, most) <= ch.len(),
        uniq_end(ch, items, i, j, same_min, most) - i <= most,
        forall|k: int| j <= k < uniq_end(ch, items, i, j, same_min, most) ==> ch[k],
    decreases ch.len() - j,
{
    if j < ch.len() && ch[j] && j - i < most && !repeats(ch, items, j, same_min) {
        lemma_uniq_end(ch, items, i, j + 1, same_min, most);
    }
}

/// What a run covers: it makes progress, stays inside the column and within
/// the limits, and holds what its kind says.
pub proof fn lemma_next_run(ch: Seq<bool>, items: Seq<Seq<u8>>, rules: RunRules, i: int)
    requires
        rules.valid(),
        0 <= i < ch.len(),
    ensures
        i < next_run(ch, items, rules, i).1 <= ch.len(),
        next_run(ch, items, rules, i).0 == RunKind::Skip ==> forall|k: int|
            i <= k < next_run(ch, items, rules, i).1 ==> !ch[k],
        next_run(ch, items, rules, i).0 != RunKind::Skip ==> forall|k: int|
            i <= k < next_run(ch, items, rules, i).1 ==> ch[k],
        next_run(ch, items, rules, i).0 == RunKind::Same ==> (forall|k: int|
            i <= k < next_run(ch, items, rules, i).1 ==> #[trigger] items[k] == items[i])
            && rules.same_min <= next_run(ch, items, rules, i).1 - i <= rules.same_max,
        next_run(ch, items, rules, i).0 == RunKind::Uniq ==> next_run(ch, items, rules, i).1 - i
            <= rules.uniq_max,
{
    if !ch[i] {
        lemma_skip_end(ch, i);
    } else {
        lemma_same_end(ch, items, i, i + 1, rules.same_max as int);
        lemma_uniq_end(ch, items, i, i + 1, rules.same_min as int, rules.uniq_max as int);
    }
}

/// Items of one width take that width each.
pub proof fn lemma_flat_len(items: Seq<Seq<u8>>, from: int, to: int, size: int)
    requires
        0 <= from <= to <= items.len(),
        forall|k: int| from <= k < to ==> (#[trigger] items[k]).len() == size,
    ensures
        flat_items(items, from, to).len() == (to - from) * size,
    decreases to - from,
{
    if from < to {
        lemma_flat_len(items, from, to - 1, size);
        assert((to - from) * size == (to - 1 - from) * size + size) by (nonlinear_arith);
    } else {
        assert((to - from) * size == 0) by (nonlinear_arith)
            requires
                to - from == 0,
        ;
    }
}

/// Items of one width lie one after another.
pub proof fn lemma_flat_item(items: Seq<Seq<u8>>, from: int, to: int, size: int, k: int)
    requires
        0 <= from <= k < to <= items.len(),
        0 <= size,
        forall|j: int| from <= j < to ==> (#[trigger] items[j]).len() == size,
    ensures
        0 <= (k - from) * size,
        (k - from) * size + size <= (to - from) * size,
        flat_items(items, from, to).len() == (to - from) * size,
        flat_items(items, from, to).subrange((k - from) * size, (k - from) * size + size)
            == items[k],
    decreases to - from,
{
    lemma_flat_len(items, from, to, size);
    lemma_flat_len(items, from, to - 1, size);
    let lo = (k - from) * size;
    assert(0 <= lo && lo + size <= (to - from) * size) by (nonlinear_arith)
        requires
            lo == (k - from) * size,
            0 <= k - from,
            k + 1 <= to,
            0 <= size,
    ;
    if k < to - 1 {
        lemma_flat_item(items, from, to - 1, size, k);
        assert(flat_items(items, from, to).subrange(lo, lo + size) =~= flat_items(
            items,
            from,
            to - 1,
        ).subrange(lo, lo + size));
    } else {
        assert(items[k].len() == size);
        assert(flat_items(items, from, to).subrange(lo, lo + size) =~= items[k]);
    }
}

/// Items that lie one after another are read back as those items.
pub proof fn lemma_items_read(
    d: Seq<u8>,
    c: int,
    items: Seq<Seq<u8>>,
    from: int,
    to: int,
    size: int,
)
    requires
        0 <= from <= to <= items.len(),
        0 <= size,
        forall|j: int| from <= j < to ==> (#[trigger] items[j]).len() == size,
        lies_at(d, c, flat_items(items, from, to)),
    ensures
        flat_items(items, from, to).len() == (to - from) * size,
        items_in(d, c, size, size, to - from) == items.subrange(from, to),
{
    lemma_flat_len(items, from, to, size);
    let read = items_in(d, c, size, size, to - from);
    let part = items.subrange(from, to);
    let flat = flat_items(items, from, to);
    assert forall|j: int| 0 <= j < to - from implies read[j] == part[j] by {
        lemma_flat_item(items, from, to, size, from + j);
        let lo = j * size;
        assert((from + j - from) * size == lo);
        assert(flat.subrange(lo, lo + size) == items[from + j]);
        assert forall|k: int| 0 <= k < size implies d[c + lo + k] == #[trigger] items[from + j][k] by {
            lemma_lies_byte(d, c, flat, lo + k);
            assert(flat.subrange(lo, lo + size)[k] == flat[lo + k]);
        }
        assert(read[j] =~= items[from + j]);
    }
    assert(read =~= part);
}

/// One item that lies at a place is read back any number of times.
pub proof fn lemma_same_read(
    d: Seq<u8>,
    c: int,
    items: Seq<Seq<u8>>,
    from: int,
    to: int,
    size: int,
)
    requires
        0 <= from < to <= items.len(),
        items[from].len() == size,
        forall|j: int| from <= j < to ==> #[trigger] items[j] == items[from],
        lies_at(d, c, items[from]),
    ensures
        items_in(d, c, size, 0, to - from) == items.subrange(from, to),
{
    let read = items_in(d, c, size, 0, to - from);
    let part = items.subrange(from, to);
    assert forall|j: int| 0 <= j < to - from implies read[j] == part[j] by {
        assert(items[from + j] == items[from]);
        assert(j * 0 == 0);
        assert(read[j] == d.subrange(c, c + size));
    }
    assert(read =~= part);
}

/// Plane `p` of `rs` has the bytes before `at` from `cur` and the others from `prev`.
pub open spec fn half_done(
    rs: Seq<Seq<u8>>,
    prev: Seq<Seq<u8>>,
    cur: Seq<Seq<u8>>,
    b: Bmhd,
    p: int,
    at: int,
) -> bool {
    forall|i: int, c: int|
        0 <= i < rs.len() && plane_of(b, i) == p && 0 <= c < b.row_len() ==> #[trigger] rs[i][c]
            == if c < at {
            cur[i][c]
        } else {
            prev[i][c]
        }
}

/// Rows that already hold their items need not be written.
pub proof fn lemma_write_run_skip(
    rs: Seq<Seq<u8>>,
    b: Bmhd,
    p: int,
    at: int,
    size: int,
    row: int,
    mid: int,
    items: Seq<Seq<u8>>,
)
    requires
        0 <= at,
        0 <= size,
        0 <= p < b.rows_per_line(),
        items.len() == b.height,
        forall|k: int| 0 <= k < items.len() ==> (#[trigger] items[k]).len() == size,
        0 <= row <= mid <= b.height,
        forall|y: int|
            row <= y < mid ==> #[trigger] column_items(rs, b, p, at, size)[y] == items[y],
    ensures
        write_run(rs, b, p, at, mid, items.subrange(mid, b.height as int)) == write_run(
            rs,
            b,
            p,
            at,
            row,
            items.subrange(row, b.height as int),
        ),
{
    let h = b.height as int;
    let short = write_run(rs, b, p, at, mid, items.subrange(mid, h));
    let long = write_run(rs, b, p, at, row, items.subrange(row, h));
    assert forall|i: int| 0 <= i < rs.len() implies short[i] == long[i] by {
        let y = line_of(b, i);
        if plane_of(b, i) == p && row <= y < h {
            assert(items[y].len() == size);
            assert(items.subrange(row, h)[y - row] == items[y]);
            if y < mid {
                lemma_row_index(b, i, y, p);
                assert(column_items(rs, b, p, at, size)[y] == items[y]);
                if at + size <= rs[i].len() {
                    assert(rs[i].subrange(at, at + size) == items[y]);
                    assert forall|c: int| 0 <= c < rs[i].len() implies splice(
                        rs[i],
                        at,
                        items[y],
                    )[c] == rs[i][c] by {
                        if at <= c < at + size {
                            assert(rs[i].subrange(at, at + size)[c - at] == rs[i][c]);
                        }
                    }
                    assert(splice(rs[i], at, items[y]) =~= rs[i]);
                }
            } else {
                assert(items.subrange(mid, h)[y - mid] == items[y]);
            }
        }
    }
    assert(short =~= long);
}

/// Whether a column before `at + size` has changed: one before `at`, or that at `at`.
pub proof fn lemma_dirty_step(
    prev: Seq<Seq<u8>>,
    cur: Seq<Seq<u8>>,
    b: Bmhd,
    p: int,
    size: int,
    at: int,
)
    requires
        size == 2 || size == 4,
        0 <= at,
        at % size == 0,
    ensures
        (exists|a: int|
            0 <= a < at + size && a % size == 0 && column_dirty(
                #[trigger] column_changed(prev, cur, b, p, a, size),
            )) == ((exists|a: int|
            0 <= a < at && a % size == 0 && column_dirty(
                #[trigger] column_changed(prev, cur, b, p, a, size),
            )) || column_dirty(column_changed(prev, cur, b, p, at, size))),
{
    assert forall|a: int| 0 <= a < at + size && #[trigger] (a % size) == 0 implies a <= at by {}
}

/// Writing the rows above `mid` leaves the items from there on.
pub proof fn lemma_items_below(
    rs: Seq<Seq<u8>>,
    b: Bmhd,
    p: int,
    at: int,
    size: int,
    row: int,
    mid: int,
    part: Seq<Seq<u8>>,
    y: int,
)
    requires
        0 <= p < b.rows_per_line(),
        0 <= row <= mid <= y < b.height,
        part.len() == mid - row,
        rs.len() == b.height * b.rows_per_line(),
    ensures
        column_items(write_run(rs, b, p, at, row, part), b, p, at, size)[y] == column_items(
            rs,
            b,
            p,
            at,
            size,
        )[y],
{
    let i = row_index(b, y, p);
    lemma_row_bounds(b, y, p);
    lemma_row_index(b, i, y, p);
}

/// A column that still is the earlier frame's.
pub proof fn lemma_half_items(
    rs: Seq<Seq<u8>>,
    prev: Seq<Seq<u8>>,
    cur: Seq<Seq<u8>>,
    b: Bmhd,
    p: int,
    at: int,
    size: int,
    y: int,
)
    requires
        shaped(rs, b),
        shaped(prev, b),
        half_done(rs, prev, cur, b, p, at),
        0 <= at,
        0 <= size,
        at + size <= b.row_len(),
        0 <= p < b.rows_per_line(),
        0 <= y < b.height,
    ensures
        column_items(rs, b, p, at, size)[y] == column_items(prev, b, p, at, size)[y],
{
    let i = row_index(b, y, p);
    lemma_row_bounds(b, y, p);
    lemma_row_index(b, i, y, p);
    assert forall|k: int| 0 <= k < size implies #[trigger] rs[i].subrange(at, at + size)[k]
        == prev[i].subrange(at, at + size)[k] by {
        assert(rs[i][at + k] == prev[i][at + k]);
    }
    assert(rs[i].subrange(at, at + size) =~= prev[i].subrange(at, at + size));
}

/// Writing a whole column moves the border between the two frames past it.
pub proof fn lemma_column_written(
    rs: Seq<Seq<u8>>,
    prev: Seq<Seq<u8>>,
    cur: Seq<Seq<u8>>,
    b: Bmhd,
    p: int,
    at: int,
    size: int,
)
    requires
        shaped(rs, b),
        shaped(prev, b),
        shaped(cur, b),
        half_done(rs, prev, cur, b, p, at),
        0 <= at,
        0 <= size,
        at + size <= b.row_len(),
        0 <= p < b.rows_per_line(),
    ensures
        shaped(write_run(rs, b, p, at, 0, column_items(cur, b, p, at, size)), b),
        half_done(
            write_run(rs, b, p, at, 0, column_items(cur, b, p, at, size)),
            prev,
            cur,
            b,
            p,
            at + size,
        ),
        forall|i: int|
            0 <= i < rs.len() && plane_of(b, i) != p ==> #[trigger] write_run(
                rs,
                b,
                p,
                at,
                0,
                column_items(cur, b, p, at, size),
            )[i] == rs[i],
{
    let items = column_items(cur, b, p, at, size);
    let next = write_run(rs, b, p, at, 0, items);
    assert forall|i: int| 0 <= i < next.len() implies (#[trigger] next[i]).len() == b.row_len() by {
        assert(rs[i].len() == b.row_len());
    }
    assert forall|i: int, c: int|
        0 <= i < next.len() && plane_of(b, i) == p && 0 <= c < b.row_len() implies #[trigger] next[i][c]
        == if c < at + size {
        cur[i][c]
    } else {
        prev[i][c]
    } by {
        lemma_line_bounds(b, i);
        let y = line_of(b, i);
        assert(rs[i].len() == b.row_len());
        assert(cur[i].len() == b.row_len());
        assert(items[y] == cur[i].subrange(at, at + size));
        assert(rs[i][c] == if c < at {
            cur[i][c]
        } else {
            prev[i][c]
        });
        if at <= c < at + size {
            assert(items[y][c - at] == cur[i][c]);
        }
    }
}

/// A plane without a changed column is the same in both frames.
pub proof fn lemma_clean_plane(prev: Seq<Seq<u8>>, cur: Seq<Seq<u8>>, b: Bmhd, p: int, size: int)
    requires
        shaped(prev, b),
        shaped(cur, b),
        size == 1 || size == 2 || size == 4,
        b.row_len() % size == 0,
        0 <= p < b.rows_per_line(),
        !plane_dirty(prev, cur, b, p, size),
    ensures
        forall|i: int| 0 <= i < prev.len() && plane_of(b, i) == p ==> #[trigger] prev[i] == cur[i],
{
    assert forall|i: int| 0 <= i < prev.len() && plane_of(b, i) == p implies #[trigger] prev[i]
        == cur[i] by {
        lemma_line_bounds(b, i);
        let y = line_of(b, i);
        assert(prev[i].len() == b.row_len());
        assert(cur[i].len() == b.row_len());
        assert forall|c: int| 0 <= c < b.row_len() implies prev[i][c] == cur[i][c] by {
            let at = c - c % size;
            assert(at % size == 0 && at + size <= b.row_len() && 0 <= at <= c < at + size);
            let ch = column_changed(prev, cur, b, p, at, size);
            assert(!column_dirty(ch));
            assert(!ch[y]);
            assert(prev[i].subrange(at, at + size)[c - at] == cur[i].subrange(at, at + size)[c
                - at]);
        }
        assert(prev[i] =~= cur[i]);
    }
}

/// Completing a plane.
pub proof fn lemma_plane_done(
    rs: Seq<Seq<u8>>,
    base: Seq<Seq<u8>>,
    prev: Seq<Seq<u8>>,
    cur: Seq<Seq<u8>>,
    b: Bmhd,
    p: int,
)
    requires
        shaped(rs, b),
        shaped(prev, b),
        shaped(cur, b),
        base == merged(prev, cur, b, p),
        half_done(rs, prev, cur, b, p, b.row_len()),
        forall|i: int| 0 <= i < rs.len() && plane_of(b, i) != p ==> #[trigger] rs[i] == base[i],
    ensures
        rs == merged(prev, cur, b, p + 1),
{
    assert forall|i: int| 0 <= i < rs.len() implies rs[i] == merged(prev, cur, b, p + 1)[i] by {
        if plane_of(b, i) == p {
            assert(rs[i].len() == b.row_len());
            assert(cur[i].len() == b.row_len());
            assert forall|c: int| 0 <= c < b.row_len() implies rs[i][c] == cur[i][c] by {}
            assert(rs[i] =~= cur[i]);
        }
    }
    assert(rs =~= merged(prev, cur, b, p + 1));
}

/// Starting a plane.
pub proof fn lemma_plane_start(prev: Seq<Seq<u8>>, cur: Seq<Seq<u8>>, b: Bmhd, p: int)
    requires
        shaped(prev, b),
        shaped(cur, b),
    ensures
        shaped(merged(prev, cur, b, p), b),
        half_done(merged(prev, cur, b, p), prev, cur, b, p, 0),
        merged(prev, cur, b, 0) == prev,
{
    let rs = merged(prev, cur, b, p);
    assert forall|i: int| 0 <= i < rs.len() implies (#[trigger] rs[i]).len() == b.row_len() by {
        assert(prev[i].len() == b.row_len());
        assert(cur[i].len() == b.row_len());
    }
    assert forall|i: int| 0 <= i < prev.len() implies merged(prev, cur, b, 0)[i] == prev[i] by {
        lemma_line_bounds(b, i);
    }
    assert(merged(prev, cur, b, 0) =~= prev);
}

/// Appends ops that skip `n` rows.
pub fn push_skips(out: &mut Vec<u8>, n: usize) -> (ops: usize)
    ensures
        final(out)@ == old(out)@ + skip_ops(n as int),
        ops == skip_ops(n as int).len(),
        ops <= n,
{
    let ghost before = out@;
    let mut left: usize = n;
    let mut ops: usize = 0;
    assert(out@ + skip_ops(n as int) =~= before + skip_ops(n as int));
    while left > 0
        invariant
            left <= n,
            ops + left <= n,
            out@ + skip_ops(left as int) == before + skip_ops(n as int),
            ops + skip_ops(left as int).len() == skip_ops(n as int).len(),
        decreases left,
    {
        let ghost mid = out@;
        let step: usize = if left > 0x7F {
            0x7F
        } else {
            left
        };
        out.push(step as u8);
        proof {
            assert(skip_ops(left as int) =~= seq![step as u8] + skip_ops(left - step));
            assert(out@ + skip_ops(left - step) =~= mid + skip_ops(left as int));
        }
        left = left - step;
        ops += 1;
    }
    assert(out@ =~= before + skip_ops(n as int));
    ops
}

/// One frame pair's column, as the encoders walk it.
pub struct ColumnRef<'a> {
    /// Rows of the frame before.
    pub prev: &'a [Vec<u8>],
    /// Rows of the frame to encode.
    pub cur: &'a [Vec<u8>],
    /// Shape of both.
    pub bmhd: Bmhd,
    /// Plane of the column.
    pub plane: usize,
    /// Byte of a row where the column starts.
    pub at: usize,
    /// Bytes per item.
    pub size: usize,
}

impl<'a> ColumnRef<'a> {
    /// The frame to encode has room for the column, and the frame before has
    /// as many rows.
    pub open spec fn valid(self) -> bool {
        &&& self.plane < self.bmhd.n_planes
        &&& self.at + self.size <= 0x2000
        &&& 1 <= self.size <= 4
        &&& holds_plane(
            rows(self.cur@),
            self.bmhd,
            self.plane as int,
            self.at + self.size,
        )
        &&& self.prev@.len() == self.cur@.len()
    }

    /// Which items have changed.
    pub open spec fn changed(self) -> Seq<bool> {
        column_changed(
            rows(self.prev@),
            rows(self.cur@),
            self.bmhd,
            self.plane as int,
            self.at as int,
            self.size as int,
        )
    }

    /// The items to encode.
    pub open spec fn items(self) -> Seq<Seq<u8>> {
        column_items(
            rows(self.cur@),
            self.bmhd,
            self.plane as int,
            self.at as int,
            self.size as int,
        )
    }

    /// Index of the row that scanline `y` stores for this plane.
    fn index(&self, y: usize) -> (i: usize)
        requires
            self.valid(),
            y < self.bmhd.height,
        ensures
            i == row_index(self.bmhd, y as int, self.plane as int),
            i < self.cur@.len(),
            self.at + self.size <= self.cur@[i as int]@.len(),
    {
        let n: usize = self.bmhd.planes_per_row();
        proof {
            lemma_row_bounds(self.bmhd, y as int, self.plane as int);
            let i = row_index(self.bmhd, y as int, self.plane as int);
            lemma_row_index(self.bmhd, i, y as int, self.plane as int);
            assert(rows(self.cur@)[i] == self.cur@[i]@);
        }
        assert(y * n <= 0xFFFF * 0x100) by (nonlinear_arith)
            requires
                y <= 0xFFFF,
                n <= 0x100,
        ;
        y * n + self.plane
    }

    /// Whether the item of scanline `y` has changed.
    pub fn is_changed(&self, y: usize) -> (r: bool)
        requires
            self.valid(),
            y < self.bmhd.height,
        ensures
            r == self.changed()[y as int],
    {
        let i: usize = self.index(y);
        let was = &self.prev[i];
        let now = &self.cur[i];
        let ghost at = self.at as int;
        let ghost size = self.size as int;
        assert(rows(self.prev@)[i as int] == was@);
        assert(rows(self.cur@)[i as int] == now@);
        if self.at + self.size > was.len() {
            return true;
        }
        let mut c: usize = 0;
        while c < self.size
            invariant
                self.at + self.size <= 0x2000,
                c <= self.size,
                self.at + self.size <= was@.len(),
                self.at + self.size <= now@.len(),
                at == self.at,
                size == self.size,
                forall|k: int| at <= k < at + c ==> was@[k] == now@[k],
                i == row_index(self.bmhd, y as int, self.plane as int),
                rows(self.prev@)[i as int] == was@,
                rows(self.cur@)[i as int] == now@,
                y < self.bmhd.height,
            decreases self.size - c,
        {
            if was[self.at + c] != now[self.at + c] {
                assert(was@.subrange(at, at + size)[c as int] != now@.subrange(at, at + size)[c as int]);
                return true;
            }
            c += 1;
        }
        assert(was@.subrange(at, at + size) =~= now@.subrange(at, at + size));
        false
    }

    /// Whether scanlines `y` and `z` hold the same item.
    pub fn is_same(&self, y: usize, z: usize) -> (r: bool)
        requires
            self.valid(),
            y < self.bmhd.height,
            z < self.bmhd.height,
        ensures
            r == (self.items()[y as int] == self.items()[z as int]),
    {
        let i: usize = self.index(y);
        let j: usize = self.index(z);
        let a = &self.cur[i];
        let b = &self.cur[j];
        let ghost at = self.at as int;
        let ghost size = self.size as int;
        assert(rows(self.cur@)[i as int] == a@);
        assert(rows(self.cur@)[j as int] == b@);
        let mut c: usize = 0;
        while c < self.size
            invariant
                self.at + self.size <= 0x2000,
                c <= self.size,
                self.at + self.size <= a@.len(),
                self.at + self.size <= b@.len(),
                at == self.at,
                size == self.size,
                forall|k: int| at <= k < at + c ==> a@[k] == b@[k],
                i == row_index(self.bmhd, y as int, self.plane as int),
                j == row_index(self.bmhd, z as int, self.plane as int),
                rows(self.cur@)[i as int] == a@,
                rows(self.cur@)[j as int] == b@,
                y < self.bmhd.height,
                z < self.bmhd.height,
            decreases self.size - c,
        {
            if a[self.at + c] != b[self.at + c] {
                assert(a@.subrange(at, at + size)[c as int] != b@.subrange(at, at + size)[c as int]);
                return false;
            }
            c += 1;
        }
        assert(a@.subrange(at, at + size) =~= b@.subrange(at, at + size));
        true
    }

    /// Appends the item of scanline `y`.
    pub fn push_item(&self, out: &mut Vec<u8>, y: usize)
        requires
            self.valid(),
            y < self.bmhd.height,
        ensures
            final(out)@ == old(out)@ + self.items()[y as int],
    {
        let i: usize = self.index(y);
        let row = &self.cur[i];
        assert(rows(self.cur@)[i as int] == row@);
        crate::bytes::push_all(
            out,
            vstd::slice::slice_subrange(row.as_slice(), self.at, self.at + self.size),
        );
    }

    /// Appends the items of scanlines `from..to`.
    pub fn push_items(&self, out: &mut Vec<u8>, from: usize, to: usize)
        requires
            self.valid(),
            from <= to <= self.bmhd.height,
        ensures
            final(out)@ == old(out)@ + flat_items(self.items(), from as int, to as int),
    {
        let ghost before = out@;
        let mut y: usize = from;
        assert(out@ =~= before + flat_items(self.items(), from as int, from as int));
        while y < to
            invariant
                self.valid(),
                from <= y <= to <= self.bmhd.height,
                out@ == before + flat_items(self.items(), from as int, y as int),
            decreases to - y,
        {
            self.push_item(out, y);
            y += 1;
            assert(out@ =~= before + flat_items(self.items(), from as int, y as int));
        }
    }

    /// Whether `n` equal changed items start at scanline `j`.
    fn run_starts(&self, j: usize, n: usize) -> (r: bool)
        requires
            self.valid(),
            j < self.bmhd.height,
            1 <= n,
        ensures
            r == repeats(self.changed(), self.items(), j as int, n as int),
    {
        let height: usize = self.bmhd.height as usize;
        if n > height - j {
            return false;
        }
        let ghost ch = self.changed();
        let ghost items = self.items();
        let mut k: usize = j;
        while k < j + n
            invariant
                self.valid(),
                ch == self.changed(),
                items == self.items(),
                height == self.bmhd.height,
                1 <= n <= height - j,
                j <= k <= j + n,
                forall|m: int| j <= m < k ==> ch[m],
                forall|m: int| j <= m < k ==> #[trigger] items[m] == items[j as int],
            decreases j + n - k,
        {
            let changed: bool = self.is_changed(k);
            let same: bool = self.is_same(k, j);
            if !changed || !same {
                assert(items[k as int] != items[j as int] || !ch[k as int]);
                return false;
            }
            k += 1;
        }
        true
    }

    /// Finds the run that starts at scanline `i`.
    #[verifier::loop_isolation(false)]
    pub fn find_run(&self, rules: &RunRules, i: usize) -> (run: (RunKind, usize))
        requires
            self.valid(),
            rules.valid(),
            i < self.bmhd.height,
        ensures
            run.0 == next_run(self.changed(), self.items(), *rules, i as int).0,
            run.1 == next_run(self.changed(), self.items(), *rules, i as int).1,
            i < run.1 <= self.bmhd.height,
    {
        let height: usize = self.bmhd.height as usize;
        let ghost ch = self.changed();
        let ghost items = self.items();
        proof {
            lemma_next_run(ch, items, *rules, i as int);
        }
        if !self.is_changed(i) {
            let mut j: usize = i + 1;
            while j < height && !self.is_changed(j)
                invariant
                    i < j <= height,
                    skip_end(ch, j as int) == skip_end(ch, i as int),
                decreases height - j,
            {
                j += 1;
            }
            return (RunKind::Skip, j);
        }
        let mut same: usize = i + 1;
        while same < height && same - i < rules.same_max && self.is_changed(same) && self.is_same(
            same,
            i,
        )
            invariant
                i < same <= height,
                same_end(ch, items, i as int, same as int, rules.same_max as int) == same_end(
                    ch,
                    items,
                    i as int,
                    i + 1,
                    rules.same_max as int,
                ),
            decreases height - same,
        {
            same += 1;
        }
        if same - i >= rules.same_min {
            return (RunKind::Same, same);
        }
        let mut j: usize = i + 1;
        while j < height && j - i < rules.uniq_max && self.is_changed(j) && !self.run_starts(
            j,
            rules.same_min,
        )
            invariant
                i < j <= height,
                uniq_end(
                    ch,
                    items,
                    i as int,
                    j as int,
                    rules.same_min as int,
                    rules.uniq_max as int,
                ) == uniq_end(
                    ch,
                    items,
                    i as int,
                    i + 1,
                    rules.same_min as int,
                    rules.uniq_max as int,
                ),
            decreases height - j,
        {
            j += 1;
        }
        (RunKind::Uniq, j)
    }
}

} // verus!
