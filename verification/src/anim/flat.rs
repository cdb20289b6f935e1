//! A bitplane as one contiguous string of bytes.

use vstd::prelude::*;
use crate::anim::column::{
    column_items, flat_items, lemma_flat_item, lemma_flat_len, lemma_items_read,
};
use crate::bitmap::{
    items_in, lemma_line_bounds, lemma_row_bounds, lemma_row_index, line_of, merged, plane_of,
    row_index, rows, shaped, splice, write_items, write_run,
};
use crate::bytes::{lies_at, push_all};
use crate::ilbm::Bmhd;

verus! {

/// The rows of plane `p`, top to bottom.
pub open spec fn plane_rows(rs: Seq<Seq<u8>>, b: Bmhd, p: int) -> Seq<Seq<u8>> {
    column_items(rs, b, p, 0, b.row_len())
}

/// The bytes of plane `p`, row after row.
pub open spec fn plane_bytes(rs: Seq<Seq<u8>>, b: Bmhd, p: int) -> Seq<u8> {
    flat_items(plane_rows(rs, b, p), 0, b.height as int)
}

/// The bitmap with plane `p` replaced by the rows of `buf`.
pub open spec fn with_plane(rs: Seq<Seq<u8>>, b: Bmhd, p: int, buf: Seq<u8>) -> Seq<Seq<u8>> {
    write_run(rs, b, p, 0, 0, items_in(buf, 0, b.row_len(), b.row_len(), b.height as int))
}

/// Every row of plane `p` is there and has the right width.
pub open spec fn has_plane(rs: Seq<Seq<u8>>, b: Bmhd, p: int) -> bool {
    forall|y: int|
        0 <= y < b.height ==> 0 <= #[trigger] row_index(b, y, p) < rs.len() && rs[row_index(
            b,
            y,
            p,
        )].len() == b.row_len()
}

/// Every colour-plane row has the right width.
pub open spec fn colour_shaped(rs: Seq<Seq<u8>>, b: Bmhd) -> bool {
    forall|i: int|
        0 <= i < rs.len() && plane_of(b, i) < b.n_planes ==> #[trigger] rs[i].len() == b.row_len()
}

/// `cur` up to byte `k` and `prev` from there on.
pub open spec fn mix(prev: Seq<u8>, cur: Seq<u8>, k: int) -> Seq<u8> {
    Seq::new(
        prev.len(),
        |x: int|
            if x < k {
                cur[x]
            } else {
                prev[x]
            },
    )
}

/// A bitmap of the right shape has its planes.
pub proof fn lemma_has_plane(rs: Seq<Seq<u8>>, b: Bmhd, p: int)
    requires
        rs.len() == b.height * b.rows_per_line(),
        colour_shaped(rs, b),
        0 <= p < b.n_planes,
    ensures
        has_plane(rs, b, p),
{
    assert forall|y: int| 0 <= y < b.height implies 0 <= #[trigger] row_index(b, y, p) < rs.len()
        && rs[row_index(b, y, p)].len() == b.row_len() by {
        lemma_row_bounds(b, y, p);
        lemma_row_index(b, row_index(b, y, p), y, p);
    }
}

/// A plane takes a row's bytes per scanline.
pub proof fn lemma_plane_len(rs: Seq<Seq<u8>>, b: Bmhd, p: int)
    requires
        has_plane(rs, b, p),
    ensures
        plane_bytes(rs, b, p).len() == b.height * b.row_len(),
        forall|k: int| 0 <= k < b.height ==> (#[trigger] plane_rows(rs, b, p)[k]).len() == b.row_len(),
{
    let items = plane_rows(rs, b, p);
    assert forall|k: int| 0 <= k < b.height implies (#[trigger] items[k]).len() == b.row_len() by {
        assert(rs[row_index(b, k, p)].len() == b.row_len());
    }
    lemma_flat_len(items, 0, b.height as int, b.row_len());
}

/// Putting the later frame's plane into a half-updated bitmap.
pub proof fn lemma_with_plane(prev: Seq<Seq<u8>>, cur: Seq<Seq<u8>>, b: Bmhd, p: int)
    requires
        shaped(prev, b),
        shaped(cur, b),
        0 <= p < b.n_planes,
    ensures
        with_plane(merged(prev, cur, b, p), b, p, plane_bytes(cur, b, p)) == merged(
            prev,
            cur,
            b,
            p + 1,
        ),
{
    let w = b.row_len();
    let h = b.height as int;
    let buf = plane_bytes(cur, b, p);
    let items = plane_rows(cur, b, p);
    let rs = merged(prev, cur, b, p);
    assert(colour_shaped(cur, b));
    lemma_has_plane(cur, b, p);
    lemma_plane_len(cur, b, p);
    assert(buf.subrange(0, buf.len() as int) =~= buf);
    assert(lies_at(buf, 0, flat_items(items, 0, h)));
    lemma_items_read(buf, 0, items, 0, h, w);
    let read = items_in(buf, 0, w, w, h);
    assert(items.subrange(0, h) =~= items);
    let next = with_plane(rs, b, p, buf);
    assert forall|i: int| 0 <= i < prev.len() implies next[i] == merged(prev, cur, b, p + 1)[i] by {
        lemma_line_bounds(b, i);
        let y = line_of(b, i);
        assert(prev[i].len() == w);
        assert(cur[i].len() == w);
        if plane_of(b, i) == p {
            assert(read[y] == items[y]);
            assert(items[y] == cur[i].subrange(0, w));
            assert(splice(rs[i], 0, items[y]) =~= cur[i]);
        }
    }
    assert(next =~= merged(prev, cur, b, p + 1));
}

/// A plane of a half-updated bitmap that has not been reached yet.
pub proof fn lemma_unreached_plane(prev: Seq<Seq<u8>>, cur: Seq<Seq<u8>>, b: Bmhd, p: int)
    requires
        shaped(prev, b),
        shaped(cur, b),
        0 <= p < b.n_planes,
    ensures
        plane_bytes(merged(prev, cur, b, p), b, p) == plane_bytes(prev, b, p),
        plane_bytes(prev, b, p).len() == b.height * b.row_len(),
        plane_bytes(cur, b, p).len() == b.height * b.row_len(),
        has_plane(merged(prev, cur, b, p), b, p),
{
    let rs = merged(prev, cur, b, p);
    assert(colour_shaped(prev, b));
    assert(colour_shaped(cur, b));
    assert forall|i: int| 0 <= i < rs.len() && plane_of(b, i) < b.n_planes implies #[trigger] rs[i].len()
        == b.row_len() by {
        assert(prev[i].len() == b.row_len());
        assert(cur[i].len() == b.row_len());
    }
    lemma_has_plane(prev, b, p);
    lemma_has_plane(cur, b, p);
    lemma_has_plane(rs, b, p);
    lemma_plane_len(prev, b, p);
    lemma_plane_len(cur, b, p);
    assert(plane_rows(rs, b, p) =~= plane_rows(prev, b, p)) by {
        assert forall|y: int| 0 <= y < b.height implies plane_rows(rs, b, p)[y] == plane_rows(
            prev,
            b,
            p,
        )[y] by {
            let i = row_index(b, y, p);
            lemma_row_bounds(b, y, p);
            lemma_row_index(b, i, y, p);
        }
    }
}

/// A plane with the same bytes in both frames.
pub proof fn lemma_equal_plane(prev: Seq<Seq<u8>>, cur: Seq<Seq<u8>>, b: Bmhd, p: int)
    requires
        shaped(prev, b),
        shaped(cur, b),
        0 <= p < b.n_planes,
        plane_bytes(prev, b, p) == plane_bytes(cur, b, p),
    ensures
        merged(prev, cur, b, p + 1) == merged(prev, cur, b, p),
{
    let w = b.row_len();
    let h = b.height as int;
    assert(colour_shaped(prev, b));
    assert(colour_shaped(cur, b));
    lemma_has_plane(prev, b, p);
    lemma_has_plane(cur, b, p);
    lemma_plane_len(prev, b, p);
    lemma_plane_len(cur, b, p);
    assert forall|i: int| 0 <= i < prev.len() implies merged(prev, cur, b, p + 1)[i] == merged(
        prev,
        cur,
        b,
        p,
    )[i] by {
        if plane_of(b, i) == p {
            lemma_line_bounds(b, i);
            let y = line_of(b, i);
            lemma_flat_item(plane_rows(prev, b, p), 0, h, w, y);
            lemma_flat_item(plane_rows(cur, b, p), 0, h, w, y);
            assert(prev[i].len() == w);
            assert(cur[i].len() == w);
            assert(plane_rows(prev, b, p)[y] == prev[i].subrange(0, w));
            assert(plane_rows(cur, b, p)[y] == cur[i].subrange(0, w));
            assert(prev[i].subrange(0, w) =~= prev[i]);
            assert(cur[i].subrange(0, w) =~= cur[i]);
        }
    }
    assert(merged(prev, cur, b, p + 1) =~= merged(prev, cur, b, p));
}

/// Copies a plane out of the bitmap.
pub fn gather_plane(planar: &[Vec<u8>], bmhd: &Bmhd, p: usize) -> (buf: Vec<u8>)
    requires
        p < bmhd.n_planes,
        has_plane(rows(planar@), *bmhd, p as int),
    ensures
        buf@ == plane_bytes(rows(planar@), *bmhd, p as int),
        buf@.len() == bmhd.height * bmhd.row_len(),
{
    let height: usize = bmhd.height as usize;
    let n: usize = bmhd.planes_per_row();
    let ghost items = plane_rows(rows(planar@), *bmhd, p as int);
    let mut buf: Vec<u8> = Vec::new();
    let mut y: usize = 0;
    while y < height
        invariant
            height == bmhd.height,
            n == bmhd.rows_per_line(),
            n <= 256,
            p < n,
            y <= height,
            has_plane(rows(planar@), *bmhd, p as int),
            items == plane_rows(rows(planar@), *bmhd, p as int),
            buf@ == flat_items(items, 0, y as int),
        decreases height - y,
    {
        assert(y * n <= 0xFFFF * 0x100) by (nonlinear_arith)
            requires
                y <= 0xFFFF,
                n <= 0x100,
        ;
        let i: usize = y * n + p;
        assert(i == row_index(*bmhd, y as int, p as int));
        let row = &planar[i];
        assert(rows(planar@)[i as int] == row@);
        assert(items[y as int] =~= row@);
        push_all(&mut buf, row.as_slice());
        y += 1;
    }
    proof {
        lemma_plane_len(rows(planar@), *bmhd, p as int);
    }
    buf
}

/// Puts a plane back into the bitmap.
pub fn scatter_plane(planar: &mut [Vec<u8>], bmhd: &Bmhd, p: usize, buf: &Vec<u8>)
    requires
        p < bmhd.n_planes,
        buf@.len() == bmhd.height * bmhd.row_len(),
    ensures
        rows(final(planar)@) == with_plane(rows(old(planar)@), *bmhd, p as int, buf@),
{
    let height: usize = bmhd.height as usize;
    let w: usize = bmhd.row_bytes();
    proof {
        let h = height as int;
        let k = w as int;
        assert(h == 0 || k <= h * k) by (nonlinear_arith)
            requires
                0 <= h,
                0 <= k,
        ;
    }
    if w > 0 {
        write_items(planar, bmhd, p, 0, 0, buf.as_slice(), 0, w, w, height);
    } else {
        let ghost items = items_in(buf@, 0, w as int, w as int, height as int);
        let ghost rs = rows(planar@);
        assert forall|i: int| 0 <= i < rs.len() implies #[trigger] with_plane(
            rs,
            *bmhd,
            p as int,
            buf@,
        )[i] == rs[i] by {
            let y = line_of(*bmhd, i);
            if plane_of(*bmhd, i) == p && 0 <= y < height {
                assert(y * w as int == 0) by (nonlinear_arith)
                    requires
                        w == 0,
                ;
                assert(items[y].len() == 0);
                assert(splice(rs[i], 0, items[y]) =~= rs[i]);
            }
        }
        assert(with_plane(rs, *bmhd, p as int, buf@) =~= rs);
    }
}

/// Writes a piece of `src` over `buf`.
pub fn overwrite(buf: &mut Vec<u8>, at: usize, src: &[u8], from: usize, n: usize)
    requires
        at + n <= old(buf)@.len(),
        from + n <= src@.len(),
    ensures
        final(buf)@ == splice(old(buf)@, at as int, src@.subrange(from as int, from + n)),
{
    let ghost before = buf@;
    let room: usize = buf.len();
    let total: usize = src.len();
    let mut c: usize = 0;
    assert(buf@ =~= splice(before, at as int, src@.subrange(from as int, from + 0)));
    while c < n
        invariant
            c <= n,
            room == before.len(),
            total == src@.len(),
            at + n <= before.len(),
            from + n <= src@.len(),
            buf@ == splice(before, at as int, src@.subrange(from as int, from + c)),
        decreases n - c,
    {
        buf.set(at + c, src[from + c]);
        c += 1;
        assert(buf@ =~= splice(before, at as int, src@.subrange(from as int, from + c)));
    }
}

} // verus!
