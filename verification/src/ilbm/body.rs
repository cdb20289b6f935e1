//! BODY chunks: the rows of a bitmap, one after another.

use vstd::prelude::*;
use crate::bitmap::{rows, shaped};
use crate::bytes::{copy_range, lemma_lies_split, lies_at, push_all};
use crate::error::IffError;
use crate::ilbm::{Bmhd, Compression};
use crate::ilbm::byterun1::{
    byterun1_encode_row, lemma_unpack_from, packed_row, unpack_row, unpacked,
};

verus! {

/// A row as it is stored.
pub open spec fn stored_form(row: Seq<u8>, b: Bmhd) -> Seq<u8> {
    if b.compression == Compression::Uncompressed {
        row
    } else {
        packed_row(row, 0)
    }
}

/// The rows from `i` on as they are stored.
pub open spec fn stored_rows(rs: Seq<Seq<u8>>, b: Bmhd, i: int) -> Seq<u8>
    decreases rs.len() - i,
{
    if 0 <= i < rs.len() {
        stored_form(rs[i], b) + stored_rows(rs, b, i + 1)
    } else {
        Seq::empty()
    }
}

/// The row that is stored at byte `at`, and the position behind it.
pub open spec fn row_stored_at(d: Seq<u8>, at: int, b: Bmhd, short: &'static str) -> Result<
    (Seq<u8>, int),
    IffError,
> {
    if b.compression == Compression::Uncompressed {
        if at + b.row_len() > d.len() {
            Err(IffError::invalid(short))
        } else {
            Ok((d.subrange(at, at + b.row_len()), at + b.row_len()))
        }
    } else {
        unpacked(d, at, b.row_len(), Seq::empty())
    }
}

/// The bitmap with its rows from `i` on replaced by those stored from byte `at` on, up to
/// a faulty one.
pub open spec fn rows_replaced(
    d: Seq<u8>,
    at: int,
    b: Bmhd,
    short: &'static str,
    rs: Seq<Seq<u8>>,
    i: int,
) -> (Seq<Seq<u8>>, Result<(), IffError>)
    decreases b.height * b.rows_per_line() - i,
{
    if i >= b.height * b.rows_per_line() {
        (rs, Ok(()))
    } else {
        match row_stored_at(d, at, b, short) {
            Ok((row, next)) => rows_replaced(d, next, b, short, rs.update(i, row), i + 1),
            Err(e) => (rs, Err(e)),
        }
    }
}

/// A whole bitmap is replaced by the rows of a BODY. One that is stored as it is has to be
/// complete before any row is replaced.
pub open spec fn body_read(d: Seq<u8>, b: Bmhd, short: &'static str, rs: Seq<Seq<u8>>) -> (
    Seq<Seq<u8>>,
    Result<(), IffError>,
) {
    if b.compression == Compression::Uncompressed && d.len() < b.height * b.rows_per_line()
        * b.row_len() {
        (rs, Err(IffError::invalid(short)))
    } else {
        rows_replaced(d, 0, b, short, rs, 0)
    }
}

/// Appends a row in its stored form.
pub fn push_row(out: &mut Vec<u8>, row: &[u8], bmhd: &Bmhd)
    ensures
        final(out)@ == old(out)@ + stored_form(row@, *bmhd),
{
    if bmhd.compression == Compression::Uncompressed {
        push_all(out, row);
    } else {
        let packed: Vec<u8> = byterun1_encode_row(row);
        push_all(out, packed.as_slice());
    }
}

/// Stores the rows of a bitmap.
pub fn encode_rows(planar: &[Vec<u8>], bmhd: &Bmhd) -> (out: Vec<u8>)
    ensures
        out@ == stored_rows(rows(planar@), *bmhd, 0),
{
    let n: usize = planar.len();
    let ghost rs = rows(planar@);
    let mut out: Vec<u8> = Vec::new();
    let mut i: usize = 0;
    assert(out@ + stored_rows(rs, *bmhd, 0) =~= stored_rows(rs, *bmhd, 0));
    while i < n
        invariant
            n == planar@.len(),
            rs == rows(planar@),
            i <= n,
            out@ + stored_rows(rs, *bmhd, i as int) == stored_rows(rs, *bmhd, 0),
        decreases n - i,
    {
        let ghost out0 = out@;
        push_row(&mut out, planar[i].as_slice(), bmhd);
        assert(out@ + stored_rows(rs, *bmhd, i + 1) =~= out0 + stored_rows(rs, *bmhd, i as int));
        i += 1;
    }
    assert(out@ =~= stored_rows(rs, *bmhd, 0));
    out
}

/// Reads the row that is stored at byte `at`.
pub fn read_row(d: &[u8], at: usize, bmhd: &Bmhd, short: &'static str) -> (r: Result<
    (Vec<u8>, usize),
    IffError,
>)
    requires
        at <= d@.len(),
    ensures
        match row_stored_at(d@, at as int, *bmhd, short) {
            Ok((row, next)) => r matches Ok((v, to)) && v@ == row && to == next && to <= d@.len()
                && row.len() == bmhd.row_len(),
            Err(e) => r matches Err(f) && f == e,
        },
{
    let row_bytes: usize = bmhd.row_bytes();
    if bmhd.compression == Compression::Uncompressed {
        if d.len() - at < row_bytes {
            Err(IffError::invalid(short))
        } else {
            Ok((copy_range(d, at, at + row_bytes), at + row_bytes))
        }
    } else {
        unpack_row(d, at, row_bytes)
    }
}

/// Replaces a bitmap by the rows of a BODY.
#[verifier::loop_isolation(false)]
pub fn decode_rows(planar: &mut [Vec<u8>], d: &[u8], bmhd: &Bmhd, short: &'static str) -> (r: Result<
    (),
    IffError,
>)
    requires
        old(planar)@.len() >= bmhd.height * bmhd.rows_per_line(),
    ensures
        (rows(final(planar)@), r) == body_read(d@, *bmhd, short, rows(old(planar)@)),
        final(planar)@.len() == old(planar)@.len(),
{
    let row_bytes: usize = bmhd.row_bytes();
    let count: usize = bmhd.row_count();
    let total: usize = d.len();
    let ghost b = *bmhd;
    let ghost rs0 = rows(planar@);
    proof {
        let c = count as int;
        let w = row_bytes as int;
        assert(c * w <= 0xFF_FF00 * 0x2000) by (nonlinear_arith)
            requires
                0 <= c <= 0xFF_FF00,
                0 <= w <= 0x2000,
        ;
    }
    if bmhd.compression == Compression::Uncompressed && (total as u64) < count as u64
        * row_bytes as u64 {
        return Err(IffError::invalid(short));
    }
    let mut at: usize = 0;
    let mut i: usize = 0;
    let ghost target = rows_replaced(d@, 0, b, short, rs0, 0);
    while i < count
        invariant
            i <= count,
            at <= total,
            planar@.len() == old(planar)@.len(),
            rows_replaced(d@, at as int, b, short, rows(planar@), i as int) == target,
        decreases count - i,
    {
        let (row, next) = match read_row(d, at, bmhd, short) {
            Ok(x) => x,
            Err(e) => {
                return Err(e);
            },
        };
        let ghost before = rows(planar@);
        let ghost view = row@;
        planar[i] = row;
        assert(rows(planar@) =~= before.update(i as int, view));
        at = next;
        i += 1;
    }
    Ok(())
}

/// A stored row is read back.
pub proof fn lemma_row_back(d: Seq<u8>, at: int, b: Bmhd, short: &'static str, row: Seq<u8>)
    requires
        row.len() == b.row_len(),
        lies_at(d, at, stored_form(row, b)),
    ensures
        row_stored_at(d, at, b, short) == Ok::<(Seq<u8>, int), IffError>(
            (row, at + stored_form(row, b).len()),
        ),
{
    if b.compression != Compression::Uncompressed {
        lemma_unpack_from(d, at, row, 0);
        assert(row.take(0) =~= Seq::empty());
    }
}

proof fn lemma_rows_back(
    d: Seq<u8>,
    at: int,
    b: Bmhd,
    short: &'static str,
    rs: Seq<Seq<u8>>,
    cur: Seq<Seq<u8>>,
    i: int,
)
    requires
        shaped(cur, b),
        rs.len() == cur.len(),
        0 <= i <= cur.len(),
        forall|k: int| 0 <= k < i ==> rs[k] == cur[k],
        lies_at(d, at, stored_rows(cur, b, i)),
    ensures
        rows_replaced(d, at, b, short, rs, i) == (cur, Ok::<(), IffError>(())),
    decreases cur.len() - i,
{
    if i < cur.len() {
        lemma_lies_split(d, at, stored_form(cur[i], b), stored_rows(cur, b, i + 1));
        lemma_row_back(d, at, b, short, cur[i]);
        lemma_rows_back(
            d,
            at + stored_form(cur[i], b).len(),
            b,
            short,
            rs.update(i, cur[i]),
            cur,
            i + 1,
        );
    } else {
        assert(rs =~= cur);
    }
}

/// The stored rows of a bitmap have the length that its header asks for.
proof fn lemma_plain_len(rs: Seq<Seq<u8>>, b: Bmhd, i: int)
    requires
        shaped(rs, b),
        b.compression == Compression::Uncompressed,
        0 <= i <= rs.len(),
    ensures
        stored_rows(rs, b, i).len() == (rs.len() - i) * b.row_len(),
    decreases rs.len() - i,
{
    if i < rs.len() {
        lemma_plain_len(rs, b, i + 1);
        let n = rs.len() - i;
        let w = b.row_len();
        assert(n * w == (n - 1) * w + w) by (nonlinear_arith);
    } else {
        assert((rs.len() - i) * b.row_len() == 0) by (nonlinear_arith)
            requires
                rs.len() - i == 0,
        ;
    }
}

/// Reading back the stored rows of a bitmap gives the bitmap, whatever was there before.
pub proof fn law_body_round_trip(
    prev: Seq<Seq<u8>>,
    cur: Seq<Seq<u8>>,
    b: Bmhd,
    short: &'static str,
)
    requires
        shaped(cur, b),
        prev.len() == cur.len(),
    ensures
        body_read(stored_rows(cur, b, 0), b, short, prev) == (cur, Ok::<(), IffError>(())),
{
    let d = stored_rows(cur, b, 0);
    assert(d.subrange(0, d.len() as int) =~= d);
    if b.compression == Compression::Uncompressed {
        lemma_plain_len(cur, b, 0);
    }
    lemma_rows_back(d, 0, b, short, prev, cur, 0);
}

} // verus!
