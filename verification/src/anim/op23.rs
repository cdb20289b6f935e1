//! Operations 2 and 3, Long and Short Delta.
//!
//! The payload opens with eight big-endian pointers, one per colour plane; a
//! zero pointer leaves the plane as it is. A plane is one string of words, of
//! four bytes in operation 2 and of two in operation 3. Its list is made of
//! groups that move a word cursor, which starts at the first word:
//!
//! * an offset below `0x8000` moves the cursor by it and is followed by the
//!   word to put there;
//! * an offset of `0x8000..=0xFFFE` moves the cursor by its two's-complement
//!   magnitude less two and is followed by a count and that many words, put
//!   there one after another; the cursor stays on the last of them;
//! * `0xFFFF` ends the list.

use vstd::prelude::*;
use crate::anim::column::lemma_plane_start;
use crate::anim::flat::{
    colour_shaped, gather_plane, has_plane, lemma_equal_plane, lemma_has_plane,
    lemma_unreached_plane, lemma_with_plane, mix, overwrite, plane_bytes, scatter_plane, with_plane,
};
use crate::anim::lists::{
    lemma_flat_total, lemma_packed, lemma_pointers_fit, list_offset, list_views, pack_lists, packed,
    pointers_fit,
};
use crate::anim::op5::{addressed_planes, count_addressed_planes};
use crate::anim::op7::item_size;
use crate::bitmap::{merged, rows, shaped, splice};
use crate::bytes::{
    be16, be16_bytes, be32, lemma_lies_byte, lemma_lies_split, lies_at, push_all, push_be16,
    read_be16, read_be32, viewed,
};
use crate::error::{IffError, Reason};
use crate::ilbm::Bmhd;

verus! {

/// The groups of a list from byte `c` on, with the word cursor at `w`: the
/// plane they leave.
pub open spec fn op23_groups(d: Seq<u8>, size: int, buf: Seq<u8>, c: int, w: int) -> (
    Seq<u8>,
    Result<(), IffError>,
)
    decreases d.len() - c,
{
    let count = be16(d, c + 2) as int;
    let back = w + (0x1_0000 - be16(d, c)) - 2;
    if c + 2 > d.len() {
        (buf, Err(IffError::invalid("ANIM op 2/3: group list truncated")))
    } else if be16(d, c) == 0xFFFF {
        (buf, Ok(()))
    } else if be16(d, c) < 0x8000 {
        let to = w + be16(d, c);
        if to >= buf.len() as int / size {
            (buf, Err(IffError::invalid("ANIM op 2/3: word offset past plane end")))
        } else if c + 2 + size > d.len() || size <= 0 {
            (buf, Err(IffError::invalid("ANIM op 2/3: data word truncated")))
        } else {
            op23_groups(
                d,
                size,
                splice(buf, to * size, d.subrange(c + 2, c + 2 + size)),
                c + 2 + size,
                to,
            )
        }
    } else if c + 4 > d.len() {
        (buf, Err(IffError::invalid("ANIM op 2/3: group list truncated")))
    } else if count == 0 {
        (buf, Err(IffError::invalid("ANIM op 2/3: zero-length data run")))
    } else if back + count > buf.len() as int / size {
        (buf, Err(IffError::invalid("ANIM op 2/3: data run past plane end")))
    } else if c + 4 + count * size > d.len() || count * size < 0 {
        (buf, Err(IffError::invalid("ANIM op 2/3: data run truncated")))
    } else {
        op23_groups(
            d,
            size,
            splice(buf, back * size, d.subrange(c + 4, c + 4 + count * size)),
            c + 4 + count * size,
            back + count - 1,
        )
    }
}

/// The planes from `p` on.
pub open spec fn op23_planes(d: Seq<u8>, b: Bmhd, size: int, rs: Seq<Seq<u8>>, p: int) -> (
    Seq<Seq<u8>>,
    Result<(), IffError>,
)
    decreases addressed_planes(b) - p,
{
    if p >= addressed_planes(b) {
        (rs, Ok(()))
    } else if be32(d, 4 * p) == 0 {
        op23_planes(d, b, size, rs, p + 1)
    } else if be32(d, 4 * p) >= d.len() {
        (rs, Err(IffError::invalid("ANIM op 2/3: plane pointer out of range")))
    } else {
        match op23_groups(d, size, plane_bytes(rs, b, p), be32(d, 4 * p) as int, 0) {
            (buf, Ok(())) => op23_planes(d, b, size, with_plane(rs, b, p, buf), p + 1),
            (buf, Err(e)) => (rs, Err(e)),
        }
    }
}

/// What an operation-2 payload (`long_data`) or operation-3 payload makes of a
/// bitmap. A malformed list leaves its plane, and all after it, as they were.
pub open spec fn op23_applied(d: Seq<u8>, b: Bmhd, rs: Seq<Seq<u8>>, long_data: bool) -> (
    Seq<Seq<u8>>,
    Result<(), IffError>,
) {
    if d.len() < 32 {
        (rs, Err(IffError::invalid("ANIM op 2/3: pointer table truncated")))
    } else {
        op23_planes(d, b, item_size(long_data) as int, rs, 0)
    }
}

/// Every plane from `p` on that the payload gets to is there.
pub open spec fn op23_present_from(d: Seq<u8>, b: Bmhd, size: int, rs: Seq<Seq<u8>>, p: int) -> bool
    decreases addressed_planes(b) - p,
{
    if p >= addressed_planes(b) {
        true
    } else if be32(d, 4 * p) == 0 {
        op23_present_from(d, b, size, rs, p + 1)
    } else if be32(d, 4 * p) >= d.len() {
        true
    } else {
        &&& has_plane(rs, b, p)
        &&& match op23_groups(d, size, plane_bytes(rs, b, p), be32(d, 4 * p) as int, 0) {
            (buf, Ok(())) => op23_present_from(d, b, size, with_plane(rs, b, p, buf), p + 1),
            (buf, Err(e)) => true,
        }
    }
}

/// Every plane that the payload gets to is there.
pub open spec fn op23_planes_present(
    d: Seq<u8>,
    b: Bmhd,
    rs: Seq<Seq<u8>>,
    long_data: bool,
) -> bool {
    d.len() >= 32 ==> op23_present_from(d, b, item_size(long_data) as int, rs, 0)
}

/// A bitmap of its header's shape has every plane.
pub proof fn lemma_op23_present(d: Seq<u8>, b: Bmhd, size: int, rs: Seq<Seq<u8>>, p: int)
    requires
        shaped(rs, b),
        0 <= p,
    ensures
        op23_present_from(d, b, size, rs, p),
    decreases addressed_planes(b) - p,
{
    if p < addressed_planes(b) {
        lemma_has_plane(rs, b, p);
        lemma_op23_present(d, b, size, rs, p + 1);
        if let (buf, Ok(())) = op23_groups(
            d,
            size,
            plane_bytes(rs, b, p),
            be32(d, 4 * p) as int,
            0,
        ) {
            lemma_op23_present(d, b, size, with_plane(rs, b, p, buf), p + 1);
        }
    }
}

#[verifier::loop_isolation(false)]
fn apply_groups(buf: &mut Vec<u8>, delta: &[u8], size: usize, from: usize) -> (r: Result<
    (),
    IffError,
>)
    requires
        size == 2 || size == 4,
        from <= delta@.len(),
    ensures
        (final(buf)@, r) == op23_groups(delta@, size as int, old(buf)@, from as int, 0),
        final(buf)@.len() == old(buf)@.len(),
{
    let ghost target = op23_groups(delta@, size as int, buf@, from as int, 0);
    let ghost sz = size as int;
    let total: usize = delta.len();
    let room: usize = buf.len();
    let words: usize = room / size;
    let mut c: usize = from;
    let mut w: usize = 0;
    assert(words * size <= room) by (nonlinear_arith)
        requires
            words == room / size,
            size > 0,
    ;
    loop
        invariant
            c <= total,
            w <= words,
            buf@.len() == room,
            op23_groups(delta@, sz, buf@, c as int, w as int) == target,
        decreases total - c,
    {
        if total - c < 2 {
            return Err(IffError::invalid("ANIM op 2/3: group list truncated"));
        }
        let offset: u16 = read_be16(delta, c);
        if offset == 0xFFFF {
            return Ok(());
        }
        if offset < 0x8000 {
            if offset as usize >= words - w {
                return Err(IffError::invalid("ANIM op 2/3: word offset past plane end"));
            }
            let to: usize = w + offset as usize;
            if total - c - 2 < size {
                return Err(IffError::invalid("ANIM op 2/3: data word truncated"));
            }
            assert(to * size + size <= words * size) by (nonlinear_arith)
                requires
                    to + 1 <= words,
                    size > 0,
            ;
            overwrite(buf, to * size, delta, c + 2, size);
            c += 2 + size;
            w = to;
        } else {
            let advance: usize = 0xFFFE - offset as usize;
            if total - c < 4 {
                return Err(IffError::invalid("ANIM op 2/3: group list truncated"));
            }
            let count: usize = read_be16(delta, c + 2) as usize;
            if count == 0 {
                return Err(IffError::invalid("ANIM op 2/3: zero-length data run"));
            }
            if advance + count > words - w {
                return Err(IffError::invalid("ANIM op 2/3: data run past plane end"));
            }
            let to: usize = w + advance;
            assert(count * size <= 0xFFFF * 4) by (nonlinear_arith)
                requires
                    count <= 0xFFFF,
                    size <= 4,
            ;
            if total - c - 4 < count * size {
                return Err(IffError::invalid("ANIM op 2/3: data run truncated"));
            }
            assert(to * size + count * size <= words * size && 0 <= to * size && 0 <= count * size)
                by (nonlinear_arith)
                requires
                    to + count <= words,
                    size > 0,
            ;
            overwrite(buf, to * size, delta, c + 4, count * size);
            c += 4 + count * size;
            w = to + count - 1;
        }
    }
}

/// Applies an operation-2 (`long_data`) or operation-3 payload to a bitmap.
#[verifier::loop_isolation(false)]
pub fn apply_op23(planar: &mut [Vec<u8>], delta: &[u8], bmhd: &Bmhd, long_data: bool) -> (r: Result<
    (),
    IffError,
>)
    requires
        op23_planes_present(delta@, *bmhd, rows(old(planar)@), long_data),
    ensures
        (rows(final(planar)@), r) == op23_applied(delta@, *bmhd, rows(old(planar)@), long_data),
{
    let size: usize = item_size(long_data);
    if delta.len() < 32 {
        return Err(IffError::invalid("ANIM op 2/3: pointer table truncated"));
    }
    let ghost target = op23_planes(delta@, *bmhd, size as int, rows(planar@), 0);
    let total: usize = delta.len();
    let n_planes: usize = count_addressed_planes(bmhd);
    let mut p: usize = 0;
    while p < n_planes
        invariant
            p <= n_planes,
            op23_planes(delta@, *bmhd, size as int, rows(planar@), p as int) == target,
            op23_present_from(delta@, *bmhd, size as int, rows(planar@), p as int),
        decreases n_planes - p,
    {
        let off: usize = read_be32(delta, 4 * p) as usize;
        if off != 0 {
            if off >= total {
                return Err(IffError::invalid("ANIM op 2/3: plane pointer out of range"));
            }
            let mut buf: Vec<u8> = gather_plane(planar, bmhd, p);
            match apply_groups(&mut buf, delta, size, off) {
                Ok(()) => {},
                Err(e) => {
                    return Err(e);
                },
            }
            scatter_plane(planar, bmhd, p, &buf);
        }
        p += 1;
    }
    Ok(())
}

/// Word `i` of a plane.
pub open spec fn word(buf: Seq<u8>, size: int, i: int) -> Seq<u8> {
    buf.subrange(i * size, i * size + size)
}

/// First word at or after `j` that is the same in both frames, or the plane's end.
pub open spec fn change_end(prev: Seq<u8>, cur: Seq<u8>, size: int, words: int, j: int) -> int
    decreases words - j,
{
    if j < words && word(prev, size, j) != word(cur, size, j) {
        change_end(prev, cur, size, words, j + 1)
    } else {
        j
    }
}

/// The groups that write the changed words from word `i` on, with the cursor
/// at `w`. A gap that an offset cannot span is bridged by rewriting unchanged
/// words; two or more changed words in a row share a group.
pub open spec fn op23_list(prev: Seq<u8>, cur: Seq<u8>, size: int, words: int, i: int, w: int) -> Seq<
    u8,
>
    decreases words - i, i - w,
{
    let run = change_end(prev, cur, size, words, i) - i;
    let count = if run > 0xFFFF {
        0xFFFF
    } else {
        run
    };
    if i >= words {
        be16_bytes(0xFFFF)
    } else if word(prev, size, i) == word(cur, size, i) {
        op23_list(prev, cur, size, words, i + 1, w)
    } else if i - w > 0x7FFF {
        be16_bytes(0x7FFF) + word(cur, size, w + 0x7FFF) + op23_list(
            prev,
            cur,
            size,
            words,
            i,
            w + 0x7FFF,
        )
    } else if run >= 2 && i - w <= 0x7FFE {
        proof {
            lemma_change_end(prev, cur, size, words, i);
        }
        be16_bytes((0x1_0000 - (i - w + 2)) as u16) + be16_bytes(count as u16) + cur.subrange(
            i * size,
            (i + count) * size,
        ) + op23_list(prev, cur, size, words, i + count, i + count - 1)
    } else {
        be16_bytes((i - w) as u16) + word(cur, size, i) + op23_list(
            prev,
            cur,
            size,
            words,
            i + 1,
            i,
        )
    }
}

/// The list of plane `p`; empty where the plane has not changed.
pub open spec fn op23_plane_list(
    prev: Seq<Seq<u8>>,
    cur: Seq<Seq<u8>>,
    b: Bmhd,
    size: int,
    p: int,
) -> Seq<u8> {
    let was = plane_bytes(prev, b, p);
    let now = plane_bytes(cur, b, p);
    if p >= b.n_planes || was == now {
        Seq::empty()
    } else {
        op23_list(was, now, size, (b.height * b.row_len()) / size, 0, 0)
    }
}

/// The payload of operation 2 (`size` 4) or 3 (`size` 2) that turns `prev` into `cur`.
pub open spec fn op23_body(prev: Seq<Seq<u8>>, cur: Seq<Seq<u8>>, b: Bmhd, size: int) -> Seq<u8> {
    packed(Seq::new(8, |p: int| op23_plane_list(prev, cur, b, size, p)), 1, false)
}

/// A run of changed words ends at an equal word or at the plane's end.
pub proof fn lemma_change_end(prev: Seq<u8>, cur: Seq<u8>, size: int, words: int, j: int)
    requires
        j <= words,
    ensures
        j <= change_end(prev, cur, size, words, j) <= words,
        j < words && word(prev, size, j) != word(cur, size, j) ==> j < change_end(
            prev,
            cur,
            size,
            words,
            j,
        ),
        forall|k: int|
            j <= k < change_end(prev, cur, size, words, j) ==> #[trigger] word(prev, size, k)
                != word(cur, size, k),
    decreases words - j,
{
    if j < words && word(prev, size, j) != word(cur, size, j) {
        lemma_change_end(prev, cur, size, words, j + 1);
    }
}

fn same_word(prev: &Vec<u8>, cur: &Vec<u8>, size: usize, i: usize) -> (r: bool)
    requires
        i * size + size <= prev@.len(),
        prev@.len() == cur@.len(),
    ensures
        r == (word(prev@, size as int, i as int) == word(cur@, size as int, i as int)),
{
    let room: usize = prev.len();
    let ghost lo = i * size;
    assert(0 <= i * size) by (nonlinear_arith);
    let at: usize = i * size;
    let mut k: usize = 0;
    while k < size
        invariant
            k <= size,
            at == i * size,
            room == prev@.len(),
            at + size <= prev@.len(),
            prev@.len() == cur@.len(),
            forall|x: int| at <= x < at + k ==> prev@[x] == cur@[x],
        decreases size - k,
    {
        if prev[at + k] != cur[at + k] {
            assert(word(prev@, size as int, i as int)[k as int] != word(
                cur@,
                size as int,
                i as int,
            )[k as int]);
            return false;
        }
        k += 1;
    }
    assert(word(prev@, size as int, i as int) =~= word(cur@, size as int, i as int));
    true
}

/// Finds the end of a run of changed words.
fn find_change_end(prev: &Vec<u8>, cur: &Vec<u8>, size: usize, words: usize, i: usize) -> (end:
    usize)
    requires
        size == 2 || size == 4,
        prev@.len() == words * size,
        cur@.len() == words * size,
        i < words,
        word(prev@, size as int, i as int) != word(cur@, size as int, i as int),
    ensures
        end == change_end(prev@, cur@, size as int, words as int, i as int),
        i < end <= words,
{
    let mut end: usize = i + 1;
    while end < words
        invariant
            size == 2 || size == 4,
            prev@.len() == words * size,
            cur@.len() == words * size,
            i < end <= words,
            change_end(prev@, cur@, size as int, words as int, end as int) == change_end(
                prev@,
                cur@,
                size as int,
                words as int,
                i as int,
            ),
        decreases words - end,
    {
        assert(end * size + size <= words * size) by (nonlinear_arith)
            requires
                end < words,
                size > 0,
        ;
        if same_word(prev, cur, size, end) {
            return end;
        }
        end += 1;
    }
    end
}

/// Appends the group for the changed word `i`; the result is the word to go on
/// with and the cursor.
#[verifier::spinoff_prover]
#[verifier::rlimit(40)]
fn encode_group(
    list: &mut Vec<u8>,
    prev: &Vec<u8>,
    cur: &Vec<u8>,
    size: usize,
    words: usize,
    i: usize,
    w: usize,
) -> (r: (usize, usize))
    requires
        size == 2 || size == 4,
        prev@.len() == words * size,
        cur@.len() == words * size,
        w <= i < words,
        word(prev@, size as int, i as int) != word(cur@, size as int, i as int),
    ensures
        final(list)@ + op23_list(
            prev@,
            cur@,
            size as int,
            words as int,
            r.0 as int,
            r.1 as int,
        ) == old(list)@ + op23_list(
            prev@,
            cur@,
            size as int,
            words as int,
            i as int,
            w as int,
        ),
        r.1 <= r.0 <= words,
        r.0 > i || r.0 == i && r.1 > w,
{
    let ghost mid = list@;
    let ghost sz = size as int;
    let ghost full = op23_list(prev@, cur@, sz, words as int, i as int, w as int);
    let room: usize = prev.len();
    if i - w > 0x7FFF {
        let at: usize = w + 0x7FFF;
        assert(at * size + size <= words * size && 0 <= at * size) by (nonlinear_arith)
            requires
                at < words,
                size > 0,
        ;
        push_be16(list, 0x7FFF);
        push_all(list, vstd::slice::slice_subrange(cur.as_slice(), at * size, at * size + size));
        let ghost rest = op23_list(prev@, cur@, sz, words as int, i as int, at as int);
        assert(full == be16_bytes(0x7FFF) + word(cur@, sz, at as int) + rest);
        assert(list@ + rest =~= mid + full);
        return (i, at);
    }
    let end: usize = find_change_end(prev, cur, size, words, i);
    let run: usize = end - i;
    if run >= 2 && i - w <= 0x7FFE {
        let count: usize = if run > 0xFFFF {
            0xFFFF
        } else {
            run
        };
        let to: usize = i + count;
        assert(to * size <= words * size && i * size <= to * size && 0 <= i * size)
            by (nonlinear_arith)
            requires
                i <= to <= words,
                size > 0,
        ;
        let head: u16 = (0xFFFE - (i - w)) as u16;
        push_be16(list, head);
        push_be16(list, count as u16);
        push_all(list, vstd::slice::slice_subrange(cur.as_slice(), i * size, to * size));
        let ghost rest = op23_list(prev@, cur@, sz, words as int, to as int, to - 1);
        assert(full == be16_bytes(head) + be16_bytes(count as u16) + cur@.subrange(
            i * sz,
            to * sz,
        ) + rest);
        assert(list@ + rest =~= mid + full);
        (to, to - 1)
    } else {
        assert(i * size + size <= words * size && 0 <= i * size) by (nonlinear_arith)
            requires
                i < words,
                size > 0,
        ;
        push_be16(list, (i - w) as u16);
        push_all(list, vstd::slice::slice_subrange(cur.as_slice(), i * size, i * size + size));
        let ghost rest = op23_list(prev@, cur@, sz, words as int, i + 1, i as int);
        assert(full == be16_bytes((i - w) as u16) + word(cur@, sz, i as int) + rest);
        assert(list@ + rest =~= mid + full);
        (i + 1, i)
    }
}

/// Appends the list of a plane; the result says whether the plane has changed.
fn encode_plane(list: &mut Vec<u8>, prev: &Vec<u8>, cur: &Vec<u8>, size: usize, words: usize) -> (r:
    bool)
    requires
        size == 2 || size == 4,
        prev@.len() == words * size,
        cur@.len() == words * size,
    ensures
        final(list)@ == old(list)@ + op23_list(prev@, cur@, size as int, words as int, 0, 0),
        r == (prev@ != cur@),
{
    let ghost before = list@;
    let ghost sz = size as int;
    let ghost full = op23_list(prev@, cur@, sz, words as int, 0, 0);
    let mut w: usize = 0;
    let mut dirty: bool = false;
    let mut i: usize = 0;
    assert(list@ + full =~= before + full);
    while i < words
        invariant
            size == 2 || size == 4,
            sz == size,
            prev@.len() == words * size,
            cur@.len() == words * size,
            full == op23_list(prev@, cur@, sz, words as int, 0, 0),
            w <= i <= words,
            list@ + op23_list(prev@, cur@, sz, words as int, i as int, w as int) == before + full,
            !dirty ==> forall|x: int| 0 <= x < i * size ==> prev@[x] == cur@[x],
            dirty ==> prev@ != cur@,
        decreases words - i, i - w,
    {
        assert(i * size + size <= words * size && 0 <= i * size && (i + 1) * size == i * size + size)
            by (nonlinear_arith)
            requires
                i < words,
                size > 0,
        ;
        if same_word(prev, cur, size, i) {
            proof {
                assert forall|x: int| !dirty && 0 <= x < (i + 1) * size implies prev@[x]
                    == cur@[x] by {
                    if x >= i * size {
                        let k = x - i * size;
                        assert(word(prev@, sz, i as int)[k] == word(cur@, sz, i as int)[k]);
                    }
                }
            }
            i += 1;
        } else {
            assert(prev@ != cur@);
            dirty = true;
            let (next, cursor) = encode_group(list, prev, cur, size, words, i, w);
            i = next;
            w = cursor;
        }
    }
    push_be16(list, 0xFFFF);
    assert(list@ =~= before + full);
    assert(!dirty ==> prev@ =~= cur@);
    dirty
}

/// What encoding the step from one bitmap to the next gives: the payload, or a fault of
/// the bitmaps' shape.
pub open spec fn op23_encoded(
    prev: Seq<Seq<u8>>,
    cur: Seq<Seq<u8>>,
    b: Bmhd,
    long_data: bool,
) -> Result<Seq<u8>, IffError> {
    let size = item_size(long_data);
    let count = b.height * b.rows_per_line();
    if prev.len() != count || cur.len() != count {
        Err(
            IffError::Invalid(
                Reason::RowCount {
                    op: "2/3",
                    prev: prev.len() as usize,
                    cur: cur.len() as usize,
                    expected: count as usize,
                },
            ),
        )
    } else if b.n_planes > 8 {
        Err(IffError::Unsupported(Reason::TooManyPlanes { op: "2/3", planes: b.n_planes }))
    } else if (b.height * b.row_len()) % size as int != 0 {
        Err(
            IffError::Unsupported(
                Reason::PlaneSize { plane_bytes: (b.height * b.row_len()) as usize, size: size },
            ),
        )
    } else {
        Ok(op23_body(prev, cur, b, size as int))
    }
}

/// Encodes the payload that turns one bitmap into the next, for operation 2
/// (`long_data`) or 3.
#[verifier::loop_isolation(false)]
pub fn encode_op23_body(
    prev_planar: &[Vec<u8>],
    cur_planar: &[Vec<u8>],
    bmhd: &Bmhd,
    long_data: bool,
) -> (r: Result<Vec<u8>, IffError>)
    requires
        prev_planar@.len() == bmhd.height * bmhd.rows_per_line() && cur_planar@.len()
            == bmhd.height * bmhd.rows_per_line() && bmhd.n_planes <= 8 && (bmhd.height
            * bmhd.row_len()) % item_size(long_data) as int == 0 ==> colour_shaped(
            rows(prev_planar@),
            *bmhd,
        ) && colour_shaped(rows(cur_planar@), *bmhd),
    ensures
        viewed(r) == op23_encoded(rows(prev_planar@), rows(cur_planar@), *bmhd, long_data),
{
    let expected: usize = bmhd.row_count();
    let size: usize = item_size(long_data);
    if prev_planar.len() != expected || cur_planar.len() != expected {
        return Err(
            IffError::Invalid(
                Reason::RowCount {
                    op: "2/3",
                    prev: prev_planar.len(),
                    cur: cur_planar.len(),
                    expected: expected,
                },
            ),
        );
    }
    if bmhd.n_planes > 8 {
        return Err(
            IffError::Unsupported(Reason::TooManyPlanes { op: "2/3", planes: bmhd.n_planes }),
        );
    }
    let height: usize = bmhd.height as usize;
    let w: usize = bmhd.row_bytes();
    assert(height * w <= 0xFFFF * 0x2000) by (nonlinear_arith)
        requires
            height <= 0xFFFF,
            w <= 0x2000,
    ;
    let plane_size: usize = height * w;
    if plane_size % size != 0 {
        return Err(
            IffError::Unsupported(Reason::PlaneSize { plane_bytes: plane_size, size: size }),
        );
    }
    let words: usize = plane_size / size;
    assert(words * size == plane_size) by {
        assert(size == 2 || size == 4);
    }
    let ghost prev = rows(prev_planar@);
    let ghost cur = rows(cur_planar@);
    let n_planes: usize = bmhd.n_planes as usize;
    let mut lists: Vec<Vec<u8>> = Vec::new();
    let mut p: usize = 0;
    while p < 8
        invariant
            p <= 8,
            lists@.len() == p,
            forall|s: int|
                0 <= s < p ==> #[trigger] lists@[s]@ == op23_plane_list(
                    prev,
                    cur,
                    *bmhd,
                    size as int,
                    s,
                ),
        decreases 8 - p,
    {
        let mut list: Vec<u8> = Vec::new();
        if p < n_planes {
            proof {
                lemma_has_plane(prev, *bmhd, p as int);
                lemma_has_plane(cur, *bmhd, p as int);
            }
            let was: Vec<u8> = gather_plane(prev_planar, bmhd, p);
            let now: Vec<u8> = gather_plane(cur_planar, bmhd, p);
            let dirty: bool = encode_plane(&mut list, &was, &now, size, words);
            if !dirty {
                list = Vec::new();
            }
            assert(list@ =~= op23_plane_list(prev, cur, *bmhd, size as int, p as int));
        }
        lists.push(list);
        p += 1;
    }
    assert(list_views(lists@) =~= Seq::new(
        8,
        |s: int| op23_plane_list(prev, cur, *bmhd, size as int, s),
    ));
    Ok(pack_lists(&lists, 1, false))
}

/// The group that bridges a gap is read back without effect.
proof fn lemma_read_bridge(
    d: Seq<u8>,
    prev: Seq<u8>,
    cur: Seq<u8>,
    size: int,
    words: int,
    c: int,
    i: int,
    w: int,
)
    requires
        size == 2 || size == 4,
        prev.len() == words * size,
        cur.len() == words * size,
        0 <= w,
        i - w > 0x7FFF,
        i < words,
        lies_at(d, c, be16_bytes(0x7FFF) + word(cur, size, w + 0x7FFF)),
    ensures
        op23_groups(d, size, mix(prev, cur, i * size), c, w) == op23_groups(
            d,
            size,
            mix(prev, cur, i * size),
            c + 2 + size,
            w + 0x7FFF,
        ),
{
    let buf = mix(prev, cur, i * size);
    let to = w + 0x7FFF;
    assert(buf.len() as int / size == words);
    assert(0 <= to * size && to * size + size <= i * size && i * size <= words * size)
        by (nonlinear_arith)
        requires
            0 <= to < i,
            i <= words,
            size > 0,
    ;
    lemma_lies_split(d, c, be16_bytes(0x7FFF), word(cur, size, to));
    lemma_lies_byte(d, c, be16_bytes(0x7FFF), 0);
    lemma_lies_byte(d, c, be16_bytes(0x7FFF), 1);
    let item = d.subrange(c + 2, c + 2 + size);
    assert(item == word(cur, size, to));
    assert(splice(buf, to * size, item) =~= buf);
}

/// A group of `count` changed words is read back.
proof fn lemma_read_run(
    d: Seq<u8>,
    prev: Seq<u8>,
    cur: Seq<u8>,
    size: int,
    words: int,
    c: int,
    i: int,
    w: int,
    count: int,
)
    requires
        size == 2 || size == 4,
        prev.len() == words * size,
        cur.len() == words * size,
        0 <= w <= i,
        i - w <= 0x7FFE,
        1 <= count <= 0xFFFF,
        i + count <= words,
        lies_at(
            d,
            c,
            be16_bytes((0x1_0000 - (i - w + 2)) as u16) + be16_bytes(count as u16) + cur.subrange(
                i * size,
                (i + count) * size,
            ),
        ),
    ensures
        op23_groups(d, size, mix(prev, cur, i * size), c, w) == op23_groups(
            d,
            size,
            mix(prev, cur, (i + count) * size),
            c + 4 + count * size,
            i + count - 1,
        ),
        (i + count) * size - i * size == count * size,
{
    let buf = mix(prev, cur, i * size);
    let head = be16_bytes((0x1_0000 - (i - w + 2)) as u16);
    let number = be16_bytes(count as u16);
    let data = cur.subrange(i * size, (i + count) * size);
    assert(buf.len() as int / size == words);
    assert((i + count) * size == i * size + count * size && (i + count) * size <= words * size && 0
        <= count * size && 0 <= i * size) by (nonlinear_arith)
        requires
            0 <= count,
            0 <= i,
            i + count <= words,
            size > 0,
    ;
    lemma_lies_split(d, c, head + number, data);
    lemma_lies_split(d, c, head, number);
    lemma_lies_byte(d, c, head, 0);
    lemma_lies_byte(d, c, head, 1);
    lemma_lies_byte(d, c + 2, number, 0);
    lemma_lies_byte(d, c + 2, number, 1);
    assert(be16(d, c) == 0x1_0000 - (i - w + 2));
    assert(be16(d, c + 2) == count);
    let item = d.subrange(c + 4, c + 4 + count * size);
    assert(item == data);
    assert(splice(buf, i * size, item) =~= mix(prev, cur, (i + count) * size));
}

/// A group of one changed word is read back.
proof fn lemma_read_single(
    d: Seq<u8>,
    prev: Seq<u8>,
    cur: Seq<u8>,
    size: int,
    words: int,
    c: int,
    i: int,
    w: int,
)
    requires
        size == 2 || size == 4,
        prev.len() == words * size,
        cur.len() == words * size,
        0 <= w <= i < words,
        i - w <= 0x7FFF,
        lies_at(d, c, be16_bytes((i - w) as u16) + word(cur, size, i)),
    ensures
        op23_groups(d, size, mix(prev, cur, i * size), c, w) == op23_groups(
            d,
            size,
            mix(prev, cur, (i + 1) * size),
            c + 2 + size,
            i,
        ),
{
    let buf = mix(prev, cur, i * size);
    let head = be16_bytes((i - w) as u16);
    assert(buf.len() as int / size == words);
    assert((i + 1) * size == i * size + size && (i + 1) * size <= words * size && 0 <= i * size)
        by (nonlinear_arith)
        requires
            0 <= i < words,
            size > 0,
    ;
    lemma_lies_split(d, c, head, word(cur, size, i));
    lemma_lies_byte(d, c, head, 0);
    lemma_lies_byte(d, c, head, 1);
    assert(be16(d, c) == i - w);
    let item = d.subrange(c + 2, c + 2 + size);
    assert(item == word(cur, size, i));
    assert(splice(buf, i * size, item) =~= mix(prev, cur, (i + 1) * size));
}

/// Reading back the groups of a plane completes it.
proof fn lemma_op23_groups(
    d: Seq<u8>,
    prev: Seq<u8>,
    cur: Seq<u8>,
    size: int,
    words: int,
    c: int,
    i: int,
    w: int,
)
    requires
        size == 2 || size == 4,
        prev.len() == words * size,
        cur.len() == words * size,
        0 <= w <= i <= words,
        lies_at(d, c, op23_list(prev, cur, size, words, i, w)),
    ensures
        op23_groups(d, size, mix(prev, cur, i * size), c, w) == (cur, Ok::<(), IffError>(())),
    decreases words - i, i - w,
{
    let buf = mix(prev, cur, i * size);
    assert(0 <= i * size <= words * size) by (nonlinear_arith)
        requires
            0 <= i <= words,
            size > 0,
    ;
    if i >= words {
        lemma_lies_byte(d, c, be16_bytes(0xFFFF), 0);
        lemma_lies_byte(d, c, be16_bytes(0xFFFF), 1);
        assert(be16(d, c) == 0xFFFF);
        assert(buf =~= cur);
    } else {
        assert((i + 1) * size == i * size + size && (i + 1) * size <= words * size)
            by (nonlinear_arith)
            requires
                i < words,
                size > 0,
        ;
        lemma_change_end(prev, cur, size, words, i);
        let run = change_end(prev, cur, size, words, i) - i;
        let count = if run > 0xFFFF {
            0xFFFF
        } else {
            run
        };
        if word(prev, size, i) == word(cur, size, i) {
            lemma_op23_groups(d, prev, cur, size, words, c, i + 1, w);
            assert forall|x: int| 0 <= x < buf.len() implies buf[x] == mix(
                prev,
                cur,
                (i + 1) * size,
            )[x] by {
                if i * size <= x < (i + 1) * size {
                    let k = x - i * size;
                    assert(word(prev, size, i)[k] == word(cur, size, i)[k]);
                }
            }
            assert(buf =~= mix(prev, cur, (i + 1) * size));
        } else if i - w > 0x7FFF {
            let group = be16_bytes(0x7FFF) + word(cur, size, w + 0x7FFF);
            assert(0 <= (w + 0x7FFF) * size && (w + 0x7FFF) * size + size <= words * size)
                by (nonlinear_arith)
                requires
                    0 <= w,
                    w + 0x7FFF < words,
                    size > 0,
            ;
            assert(group.len() == 2 + size);
            lemma_lies_split(
                d,
                c,
                group,
                op23_list(prev, cur, size, words, i, w + 0x7FFF),
            );
            lemma_read_bridge(d, prev, cur, size, words, c, i, w);
            lemma_op23_groups(d, prev, cur, size, words, c + 2 + size, i, w + 0x7FFF);
        } else if run >= 2 && i - w <= 0x7FFE {
            let group = be16_bytes((0x1_0000 - (i - w + 2)) as u16) + be16_bytes(count as u16)
                + cur.subrange(i * size, (i + count) * size);
            assert((i + count) * size <= words * size && i * size <= (i + count) * size)
                by (nonlinear_arith)
                requires
                    0 <= count,
                    i + count <= words,
                    size > 0,
            ;
            assert(group.len() == 4 + (i + count) * size - i * size);
            lemma_lies_split(
                d,
                c,
                group,
                op23_list(prev, cur, size, words, i + count, i + count - 1),
            );
            lemma_read_run(d, prev, cur, size, words, c, i, w, count);
            lemma_op23_groups(
                d,
                prev,
                cur,
                size,
                words,
                c + 4 + count * size,
                i + count,
                i + count - 1,
            );
        } else {
            let group = be16_bytes((i - w) as u16) + word(cur, size, i);
            assert(group.len() == 2 + size);
            lemma_lies_split(d, c, group, op23_list(prev, cur, size, words, i + 1, i));
            lemma_read_single(d, prev, cur, size, words, c, i, w);
            lemma_op23_groups(d, prev, cur, size, words, c + 2 + size, i + 1, i);
        }
    }
}

proof fn lemma_op23_list_end(prev: Seq<u8>, cur: Seq<u8>, size: int, words: int, i: int, w: int)
    requires
        i <= words,
        w <= i,
    ensures
        op23_list(prev, cur, size, words, i, w).len() >= 2,
    decreases words - i, i - w,
{
    if i < words {
        lemma_change_end(prev, cur, size, words, i);
        let run = change_end(prev, cur, size, words, i) - i;
        let count = if run > 0xFFFF {
            0xFFFF
        } else {
            run
        };
        if word(prev, size, i) == word(cur, size, i) {
            lemma_op23_list_end(prev, cur, size, words, i + 1, w);
        } else if i - w > 0x7FFF {
            lemma_op23_list_end(prev, cur, size, words, i, w + 0x7FFF);
        } else if run >= 2 && i - w <= 0x7FFE {
            lemma_op23_list_end(prev, cur, size, words, i + count, i + count - 1);
        } else {
            lemma_op23_list_end(prev, cur, size, words, i + 1, i);
        }
    }
}

/// Whether the list of every changed plane starts where its pointer can say so.
pub open spec fn op23_pointers_fit(
    prev: Seq<Seq<u8>>,
    cur: Seq<Seq<u8>>,
    b: Bmhd,
    size: int,
) -> bool {
    pointers_fit(Seq::new(8, |s: int| op23_plane_list(prev, cur, b, size, s)), 1)
}

/// In a payload of less than four gigabytes every list does.
pub proof fn lemma_op23_short(prev: Seq<Seq<u8>>, cur: Seq<Seq<u8>>, b: Bmhd, size: int)
    requires
        op23_body(prev, cur, b, size).len() <= u32::MAX,
    ensures
        op23_pointers_fit(prev, cur, b, size),
{
    lemma_pointers_fit(Seq::new(8, |s: int| op23_plane_list(prev, cur, b, size, s)), 1, false);
}

proof fn lemma_op23_planes(prev: Seq<Seq<u8>>, cur: Seq<Seq<u8>>, b: Bmhd, size: int, p: int)
    requires
        shaped(prev, b),
        shaped(cur, b),
        b.n_planes <= 8,
        size == 2 || size == 4,
        (b.height * b.row_len()) % size == 0,
        0 <= p <= b.n_planes,
        op23_pointers_fit(prev, cur, b, size),
    ensures
        op23_planes(op23_body(prev, cur, b, size), b, size, merged(prev, cur, b, p), p) == (
            merged(prev, cur, b, b.n_planes as int),
            Ok::<(), IffError>(()),
        ),
    decreases b.n_planes - p,
{
    if p < b.n_planes {
        let lists = Seq::new(8, |s: int| op23_plane_list(prev, cur, b, size, s));
        let d = op23_body(prev, cur, b, size);
        let was = plane_bytes(prev, b, p);
        let now = plane_bytes(cur, b, p);
        let words = (b.height * b.row_len()) / size;
        lemma_packed(lists, 1, false, p);
        lemma_unreached_plane(prev, cur, b, p);
        lemma_op23_planes(prev, cur, b, size, p + 1);
        if was == now {
            assert(lists[p].len() == 0);
            lemma_equal_plane(prev, cur, b, p);
        } else {
            lemma_op23_list_end(was, now, size, words, 0, 0);
            assert(lists[p] == op23_list(was, now, size, words, 0, 0));
            assert(mix(was, now, 0 * size) =~= was);
            lemma_op23_groups(d, was, now, size, words, list_offset(lists, p), 0, 0);
            lemma_with_plane(prev, cur, b, p);
        }
    }
}

/// Applying an encoded payload to the earlier bitmap gives the later one; the mask rows,
/// which the payload does not address, stay those of the earlier. The lists have to start
/// where 32-bit pointers reach.
pub proof fn law_op23_round_trip(
    prev: Seq<Seq<u8>>,
    cur: Seq<Seq<u8>>,
    b: Bmhd,
    long_data: bool,
    d: Seq<u8>,
)
    requires
        shaped(prev, b),
        shaped(cur, b),
        op23_encoded(prev, cur, b, long_data) == Ok::<Seq<u8>, IffError>(d),
        op23_pointers_fit(prev, cur, b, item_size(long_data) as int),
    ensures
        op23_applied(d, b, prev, long_data) == (
            merged(prev, cur, b, b.n_planes as int),
            Ok::<(), IffError>(()),
        ),
{
    let size = item_size(long_data) as int;
    let lists = Seq::new(8, |s: int| op23_plane_list(prev, cur, b, size, s));
    lemma_packed(lists, 1, false, 0);
    lemma_flat_total(lists, 8);
    lemma_plane_start(prev, cur, b, 0);
    lemma_op23_planes(prev, cur, b, size, 0);
}

} // verus!
