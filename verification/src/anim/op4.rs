//! Operation 4, Generalized Short / Long Delta.
//!
//! The payload opens with sixteen big-endian pointers: eight to data lists, one
//! per colour plane, then eight to op lists, all counted in 16-bit words. A
//! zero op pointer leaves the plane as it is. An op is a pair of fields, the
//! word of the plane where it starts and a signed size: a positive size writes
//! that many data words, one per scanline; a negative size writes one data word
//! to that many scanlines. A start with all bits set ends the list.

use vstd::prelude::*;
use crate::anim::column::{
    column_changed, column_dirty, column_items, flat_items, half_done, holds_colour,
    lemma_clean_plane, lemma_column_written, lemma_dirty_step, lemma_flat_len, lemma_half_items,
    lemma_items_below, lemma_items_read, lemma_next_run, lemma_plane_done, lemma_plane_start,
    lemma_same_read, lemma_write_run_skip, next_run, plane_dirty, ColumnRef, RunKind, RunRules,
};
use crate::anim::lists::{
    lemma_flat_total, lemma_packed, lemma_pointers_fit, list_views, lists_len, pack_lists, packed,
};
use crate::anim::op5::{addressed_planes, count_addressed_planes};
use crate::anim::op7::item_size;
use crate::bitmap::{
    items_in, lemma_row_bounds, lemma_write_run_join, merged, plane_of, row_index, rows, shaped,
    write_items, write_run,
};
use crate::bytes::{
    be16, be16_bytes, be32, lemma_lies_byte, lemma_lies_split, lies_at, push_be16, read_be16,
    read_be32, signed16, to_signed16, viewed,
};
use crate::error::{IffError, Reason};
use crate::ilbm::Bmhd;

verus! {

/// The option bits that are handled.
#[derive(Clone, Copy, Debug, PartialEq, Eq, Structural)]
pub struct Op4Options {
    /// Data words are four bytes wide instead of two.
    pub long_data: bool,
    /// The fields of an op are four bytes wide instead of two.
    pub long_offsets: bool,
}

/// Bit `k` of an option word, for `k` below six.
pub open spec fn option_bit(bits: u32, k: int) -> bool {
    if k == 0 {
        bits % 2 == 1
    } else if k == 1 {
        bits / 2 % 2 == 1
    } else if k == 3 {
        bits / 8 % 2 == 1
    } else if k == 4 {
        bits / 16 % 2 == 1
    } else {
        bits / 32 % 2 == 1
    }
}

/// The options that an option word stands for: bit 0 long data, bit 1 XOR,
/// bit 3 run-length coding, bit 4 vertical, bit 5 long offsets. Bit 2, one op
/// list for all planes, changes nothing: the pointers then are equal.
pub open spec fn op4_options(bits: u32) -> Result<Op4Options, IffError> {
    if bits >= 0x40 {
        Err(IffError::Unsupported(Reason::ReservedBits { bits: bits }))
    } else if option_bit(bits, 1) {
        Err(
            IffError::unsupported(
                "ANIM op 4: XOR mode (ANHD.bits bit 1) has no documented data-merge wire format",
            ),
        )
    } else if !option_bit(bits, 3) {
        Err(
            IffError::unsupported(
                "ANIM op 4: non-RLC mode (ANHD.bits bit 3 clear) has no documented op grammar",
            ),
        )
    } else if !option_bit(bits, 4) {
        Err(
            IffError::unsupported(
                "ANIM op 4: horizontal mode (ANHD.bits bit 4 clear) has no separate documented wire format",
            ),
        )
    } else {
        Ok(Op4Options { long_data: option_bit(bits, 0), long_offsets: option_bit(bits, 5) })
    }
}

impl Op4Options {
    /// Reads the option word.
    pub fn from_bits(bits: u32) -> (r: Result<Self, IffError>)
        ensures
            r == op4_options(bits),
    {
        if bits >= 0x40 {
            return Err(IffError::Unsupported(Reason::ReservedBits { bits: bits }));
        }
        if bits / 2 % 2 == 1 {
            return Err(
                IffError::unsupported(
                    "ANIM op 4: XOR mode (ANHD.bits bit 1) has no documented data-merge wire format",
                ),
            );
        }
        if bits / 8 % 2 != 1 {
            return Err(
                IffError::unsupported(
                    "ANIM op 4: non-RLC mode (ANHD.bits bit 3 clear) has no documented op grammar",
                ),
            );
        }
        if bits / 16 % 2 != 1 {
            return Err(
                IffError::unsupported(
                    "ANIM op 4: horizontal mode (ANHD.bits bit 4 clear) has no separate documented wire format",
                ),
            );
        }
        Ok(Op4Options { long_data: bits % 2 == 1, long_offsets: bits / 32 % 2 == 1 })
    }
}

/// A field of an op.
pub open spec fn op4_field(d: Seq<u8>, wide: bool, at: int) -> u32 {
    if wide {
        be32(d, at)
    } else {
        be16(d, at) as u32
    }
}

/// The field that ends an op list.
pub open spec fn op4_end(wide: bool) -> u32 {
    if wide {
        0xFFFF_FFFF
    } else {
        0xFFFF
    }
}

/// The size that a field holds.
pub open spec fn op4_size(wide: bool, v: u32) -> int {
    if wide {
        if v < 0x8000_0000 {
            v as int
        } else {
            v - 0x1_0000_0000
        }
    } else {
        signed16(v as u16) as int
    }
}

/// A vertical run from word `start` of the plane on; `nw` words make a row.
pub open spec fn write_words(
    rs: Seq<Seq<u8>>,
    b: Bmhd,
    p: int,
    size: int,
    start: int,
    items: Seq<Seq<u8>>,
) -> Seq<Seq<u8>> {
    let nw = b.row_len() / size;
    if items.len() == 0 {
        rs
    } else {
        write_run(rs, b, p, start % nw * size, start / nw, items)
    }
}

/// Whether a run of `n` words from word `start` down leaves the plane.
pub open spec fn past_end(b: Bmhd, size: int, start: int, n: int) -> bool {
    let nw = b.row_len() / size;
    n > 0 && start + (n - 1) * nw >= b.height * nw
}

/// The ops of a list from byte `oc` on, with data from byte `dc` on: the bitmap
/// they leave.
pub open spec fn op4_list(
    d: Seq<u8>,
    b: Bmhd,
    p: int,
    opts: Op4Options,
    rs: Seq<Seq<u8>>,
    oc: int,
    dc: int,
) -> (Seq<Seq<u8>>, Result<(), IffError>)
    decreases d.len() - oc,
{
    let wide = opts.long_offsets;
    let step = item_size(wide) as int;
    let size = item_size(opts.long_data) as int;
    let start = op4_field(d, wide, oc) as int;
    let n = op4_size(wide, op4_field(d, wide, oc + step));
    if oc + step > d.len() {
        (rs, Err(IffError::invalid("ANIM op 4: op list truncated")))
    } else if start == op4_end(wide) {
        (rs, Ok(()))
    } else if oc + 2 * step > d.len() {
        (rs, Err(IffError::invalid("ANIM op 4: op list truncated")))
    } else if n < 0 {
        if dc + size > d.len() {
            (rs, Err(IffError::invalid("ANIM op 4: Same op data word truncated")))
        } else if past_end(b, size, start, -n) {
            (rs, Err(IffError::invalid("ANIM op 4: Same op writes past plane end")))
        } else {
            op4_list(
                d,
                b,
                p,
                opts,
                write_words(rs, b, p, size, start, items_in(d, dc, size, 0, -n)),
                oc + 2 * step,
                dc + size,
            )
        }
    } else {
        if dc + n * size > d.len() {
            (rs, Err(IffError::invalid("ANIM op 4: Uniq op data words truncated")))
        } else if past_end(b, size, start, n) {
            (rs, Err(IffError::invalid("ANIM op 4: Uniq op writes past plane end")))
        } else {
            op4_list(
                d,
                b,
                p,
                opts,
                write_words(rs, b, p, size, start, items_in(d, dc, size, size, n)),
                oc + 2 * step,
                dc + n * size,
            )
        }
    }
}

/// The planes from `p` on.
pub open spec fn op4_planes(
    d: Seq<u8>,
    b: Bmhd,
    opts: Op4Options,
    rs: Seq<Seq<u8>>,
    p: int,
) -> (Seq<Seq<u8>>, Result<(), IffError>)
    decreases addressed_planes(b) - p,
{
    let data = 2 * be32(d, 4 * p);
    let ops = 2 * be32(d, 4 * (8 + p));
    if p >= addressed_planes(b) {
        (rs, Ok(()))
    } else if ops == 0 {
        op4_planes(d, b, opts, rs, p + 1)
    } else if data > usize::MAX {
        (rs, Err(IffError::invalid("ANIM op 4: data pointer overflow")))
    } else if ops > usize::MAX {
        (rs, Err(IffError::invalid("ANIM op 4: op pointer overflow")))
    } else if data > d.len() || ops >= d.len() {
        (rs, Err(IffError::invalid("ANIM op 4: list pointer out of range")))
    } else {
        match op4_list(d, b, p, opts, rs, ops, data) {
            (next, Ok(())) => op4_planes(d, b, opts, next, p + 1),
            (next, Err(e)) => (rs, Err(e)),
        }
    }
}

/// What an operation-4 payload makes of a bitmap. A malformed list leaves its
/// plane, and all after it, as they were.
pub open spec fn op4_applied(d: Seq<u8>, b: Bmhd, rs: Seq<Seq<u8>>, bits: u32) -> (
    Seq<Seq<u8>>,
    Result<(), IffError>,
) {
    match op4_options(bits) {
        Err(e) => (rs, Err(e)),
        Ok(opts) => {
            let size = item_size(opts.long_data);
            if b.row_len() % size as int != 0 {
                (
                    rs,
                    Err(
                        IffError::Invalid(
                            Reason::RowWidth {
                                op: "4",
                                row_bytes: b.row_len() as usize,
                                unit: "data-word size",
                                size: size,
                            },
                        ),
                    ),
                )
            } else if d.len() < 64 {
                (rs, Err(IffError::invalid("ANIM op 4: pointer table truncated")))
            } else {
                op4_planes(d, b, opts, rs, 0)
            }
        },
    }
}

fn read_field(delta: &[u8], wide: bool, at: usize) -> (v: u32)
    requires
        at + item_size(wide) <= delta@.len(),
    ensures
        v == op4_field(delta@, wide, at as int),
{
    if wide {
        read_be32(delta, at)
    } else {
        read_be16(delta, at) as u32
    }
}

fn read_size(wide: bool, v: u32) -> (n: i64)
    requires
        !wide ==> v <= 0xFFFF,
    ensures
        n == op4_size(wide, v),
        -0x8000_0000 <= n < 0x8000_0000,
{
    if wide {
        if v < 0x8000_0000 {
            v as i64
        } else {
            v as i64 - 0x1_0000_0000
        }
    } else {
        to_signed16(v as u16) as i64
    }
}

fn leaves_plane(bmhd: &Bmhd, size: usize, start: usize, n: usize) -> (r: bool)
    requires
        size == 2 || size == 4,
        bmhd.row_len() % size as int == 0,
    ensures
        r == past_end(*bmhd, size as int, start as int, n as int),
        !r && n > 0 ==> n <= bmhd.height && bmhd.row_len() / size as int > 0 && start as int / (
        bmhd.row_len() / size as int) + n <= bmhd.height,
{
    if n == 0 {
        return false;
    }
    let nw: usize = bmhd.row_bytes() / size;
    let height: usize = bmhd.height as usize;
    assert(height * nw <= 0xFFFF * 0x1000) by (nonlinear_arith)
        requires
            height <= 0xFFFF,
            nw <= 0x1000,
    ;
    assert(0 <= (n - 1) * nw) by (nonlinear_arith)
        requires
            n >= 1,
            nw >= 0,
    ;
    let words: usize = height * nw;
    if start >= words {
        return true;
    }
    let room: usize = words - 1 - start;
    proof {
        assert(nw > 0) by {
            if nw == 0 {
                assert(height * nw == 0) by (nonlinear_arith)
                    requires
                        nw == 0,
                ;
            }
        }
        vstd::arithmetic::div_mod::lemma_fundamental_div_mod(room as int, nw as int);
        let q = room as int / nw as int;
        let rest = room as int % nw as int;
        let m = n as int;
        let k = nw as int;
        assert((m - 1 > q) <==> (start + (m - 1) * k >= words)) by (nonlinear_arith)
            requires
                room == k * q + rest,
                0 <= rest < k,
                room == words - 1 - start,
        ;
        if m - 1 <= q {
            vstd::arithmetic::div_mod::lemma_fundamental_div_mod(start as int, k);
            let row = start as int / k;
            let col = start as int % k;
            let h = height as int;
            assert(row + m <= h && m <= h) by (nonlinear_arith)
                requires
                    start == k * row + col,
                    0 <= col < k,
                    0 <= start,
                    start + (m - 1) * k < h * k,
            ;
        }
    }
    n - 1 > room / nw
}

/// Whether `m` words of `size` bytes fit in `room` bytes.
proof fn lemma_room(m: int, size: int, room: int)
    requires
        size == 2 || size == 4,
        0 <= m,
        0 <= room,
    ensures
        m > room / size <==> m * size > room,
{
    if size == 2 {
        assert(m > room / 2 <==> m * 2 > room);
    } else {
        assert(m > room / 4 <==> m * 4 > room);
    }
}

/// Looks for a fault in an op list.
#[verifier::loop_isolation(false)]
fn check_list(
    delta: &[u8],
    bmhd: &Bmhd,
    p: usize,
    opts: Op4Options,
    op_from: usize,
    data_from: usize,
    Ghost(rs): Ghost<Seq<Seq<u8>>>,
) -> (r: Result<(), IffError>)
    requires
        op_from <= delta@.len(),
        data_from <= delta@.len(),
        bmhd.row_len() % item_size(opts.long_data) as int == 0,
    ensures
        r == op4_list(
            delta@,
            *bmhd,
            p as int,
            opts,
            rs,
            op_from as int,
            data_from as int,
        ).1,
{
    let total: usize = delta.len();
    let wide: bool = opts.long_offsets;
    let step: usize = item_size(wide);
    let size: usize = item_size(opts.long_data);
    let ghost target = op4_list(
        delta@,
        *bmhd,
        p as int,
        opts,
        rs,
        op_from as int,
        data_from as int,
    );
    let ghost mut state = rs;
    let mut oc: usize = op_from;
    let mut dc: usize = data_from;
    loop
        invariant
            oc <= total,
            dc <= total,
            op4_list(delta@, *bmhd, p as int, opts, state, oc as int, dc as int) == target,
        decreases total - oc,
    {
        if total - oc < step {
            return Err(IffError::invalid("ANIM op 4: op list truncated"));
        }
        let start: u32 = read_field(delta, wide, oc);
        if start == if wide {
            0xFFFF_FFFF
        } else {
            0xFFFF
        } {
            return Ok(());
        }
        if total - oc < 2 * step {
            return Err(IffError::invalid("ANIM op 4: op list truncated"));
        }
        let n: i64 = read_size(wide, read_field(delta, wide, oc + step));
        if n < 0 {
            if total - dc < size {
                return Err(IffError::invalid("ANIM op 4: Same op data word truncated"));
            }
            if leaves_plane(bmhd, size, start as usize, (-n) as usize) {
                return Err(IffError::invalid("ANIM op 4: Same op writes past plane end"));
            }
            proof {
                state = write_words(
                    state,
                    *bmhd,
                    p as int,
                    size as int,
                    start as int,
                    items_in(delta@, dc as int, size as int, 0, -n as int),
                );
            }
            oc += 2 * step;
            dc += size;
        } else {
            let m: usize = n as usize;
            proof {
                lemma_room(m as int, size as int, total - dc);
            }
            if m > (total - dc) / size {
                return Err(IffError::invalid("ANIM op 4: Uniq op data words truncated"));
            }
            if leaves_plane(bmhd, size, start as usize, m) {
                return Err(IffError::invalid("ANIM op 4: Uniq op writes past plane end"));
            }
            proof {
                state = write_words(
                    state,
                    *bmhd,
                    p as int,
                    size as int,
                    start as int,
                    items_in(delta@, dc as int, size as int, size as int, n as int),
                );
                assert(0 <= m * size) by (nonlinear_arith);
            }
            oc += 2 * step;
            dc += m * size;
        }
    }
}

/// Performs one op.
fn write_op(
    planar: &mut [Vec<u8>],
    bmhd: &Bmhd,
    p: usize,
    delta: &[u8],
    size: usize,
    start: usize,
    dc: usize,
    step: usize,
    n: usize,
)
    requires
        p < bmhd.n_planes,
        size == 2 || size == 4,
        step == 0 || step == size,
        bmhd.row_len() % size as int == 0,
        !past_end(*bmhd, size as int, start as int, n as int),
        n > 0 ==> dc + size <= delta@.len(),
        step != 0 ==> dc + n * step <= delta@.len(),
    ensures
        rows(final(planar)@) == write_words(
            rows(old(planar)@),
            *bmhd,
            p as int,
            size as int,
            start as int,
            items_in(delta@, dc as int, size as int, step as int, n as int),
        ),
{
    if n == 0 || leaves_plane(bmhd, size, start, n) {
        return;
    }
    let w: usize = bmhd.row_bytes();
    let nw: usize = w / size;
    let col: usize = start % nw;
    assert(nw * size == w) by {
        assert(size == 2 || size == 4);
    }
    assert(col * size + size <= nw * size && 0 <= col * size) by (nonlinear_arith)
        requires
            col < nw,
            size > 0,
    ;
    write_items(planar, bmhd, p, col * size, start / nw, delta, dc, size, step, n);
}

/// Performs the ops of a list without fault.
#[verifier::loop_isolation(false)]
fn run_list(
    planar: &mut [Vec<u8>],
    delta: &[u8],
    bmhd: &Bmhd,
    p: usize,
    opts: Op4Options,
    op_from: usize,
    data_from: usize,
)
    requires
        p < bmhd.n_planes,
        op_from <= delta@.len(),
        data_from <= delta@.len(),
        bmhd.row_len() % item_size(opts.long_data) as int == 0,
        op4_list(
            delta@,
            *bmhd,
            p as int,
            opts,
            rows(old(planar)@),
            op_from as int,
            data_from as int,
        ).1 is Ok,
    ensures
        op4_list(
            delta@,
            *bmhd,
            p as int,
            opts,
            rows(old(planar)@),
            op_from as int,
            data_from as int,
        ) == (rows(final(planar)@), Ok::<(), IffError>(())),
{
    let total: usize = delta.len();
    let wide: bool = opts.long_offsets;
    let step: usize = item_size(wide);
    let size: usize = item_size(opts.long_data);
    let ghost target = op4_list(
        delta@,
        *bmhd,
        p as int,
        opts,
        rows(planar@),
        op_from as int,
        data_from as int,
    );
    let mut oc: usize = op_from;
    let mut dc: usize = data_from;
    loop
        invariant
            oc <= total,
            dc <= total,
            op4_list(delta@, *bmhd, p as int, opts, rows(planar@), oc as int, dc as int)
                == target,
        decreases total - oc,
    {
        let start: u32 = read_field(delta, wide, oc);
        if start == if wide {
            0xFFFF_FFFF
        } else {
            0xFFFF
        } {
            return ;
        }
        let n: i64 = read_size(wide, read_field(delta, wide, oc + step));
        if n < 0 {
            write_op(planar, bmhd, p, delta, size, start as usize, dc, 0, (-n) as usize);
            dc += size;
        } else {
            let m: usize = n as usize;
            assert(0 <= m * size && (m > 0 ==> size <= m * size)) by (nonlinear_arith)
                requires
                    m >= 0,
                    size > 0,
            ;
            write_op(planar, bmhd, p, delta, size, start as usize, dc, size, m);
            dc += m * size;
        }
        oc += 2 * step;
    }
}

/// Applies an operation-4 payload to a bitmap; `bits` is the frame's option word.
#[verifier::loop_isolation(false)]
pub fn apply_op4(bits: u32, planar: &mut [Vec<u8>], delta: &[u8], bmhd: &Bmhd) -> (r: Result<
    (),
    IffError,
>)
    ensures
        (rows(final(planar)@), r) == op4_applied(delta@, *bmhd, rows(old(planar)@), bits),
{
    let opts: Op4Options = match Op4Options::from_bits(bits) {
        Ok(opts) => opts,
        Err(e) => {
            return Err(e);
        },
    };
    let size: usize = item_size(opts.long_data);
    let row_bytes: usize = bmhd.row_bytes();
    if row_bytes % size != 0 {
        return Err(
            IffError::Invalid(
                Reason::RowWidth {
                    op: "4",
                    row_bytes: row_bytes,
                    unit: "data-word size",
                    size: size,
                },
            ),
        );
    }
    if delta.len() < 64 {
        return Err(IffError::invalid("ANIM op 4: pointer table truncated"));
    }
    let ghost target = op4_planes(delta@, *bmhd, opts, rows(planar@), 0);
    let total: usize = delta.len();
    let n_planes: usize = count_addressed_planes(bmhd);
    let mut p: usize = 0;
    while p < n_planes
        invariant
            p <= n_planes,
            op4_planes(delta@, *bmhd, opts, rows(planar@), p as int) == target,
        decreases n_planes - p,
    {
        let data_ptr: usize = read_be32(delta, 4 * p) as usize;
        let op_ptr: usize = read_be32(delta, 4 * (8 + p)) as usize;
        if op_ptr != 0 {
            if data_ptr > usize::MAX / 2 {
                return Err(IffError::invalid("ANIM op 4: data pointer overflow"));
            }
            if op_ptr > usize::MAX / 2 {
                return Err(IffError::invalid("ANIM op 4: op pointer overflow"));
            }
            let data: usize = 2 * data_ptr;
            let ops: usize = 2 * op_ptr;
            if data > total || ops >= total {
                return Err(IffError::invalid("ANIM op 4: list pointer out of range"));
            }
            match check_list(delta, bmhd, p, opts, ops, data, Ghost(rows(planar@))) {
                Ok(()) => {},
                Err(e) => {
                    return Err(e);
                },
            }
            run_list(planar, delta, bmhd, p, opts, ops, data);
        }
        p += 1;
    }
    Ok(())
}

/// Repeats from two equal words on, literal runs as long as a size field allows.
#[verifier::allow_in_spec]
pub fn op4_rules() -> RunRules
    returns
        (RunRules { same_min: 2, same_max: 0x1_0000, uniq_max: 0x7FFF }),
{
    RunRules { same_min: 2, same_max: 0x1_0000, uniq_max: 0x7FFF }
}

/// How many scanlines the op takes that starts a repetition of `n`.
pub open spec fn same_chunk(n: int) -> int {
    if n > 0x7FFF {
        0x7FFF
    } else {
        n
    }
}

/// The ops of a repetition in column `c` of `nw`.
pub open spec fn same_ops(c: int, nw: int, i: int, end: int) -> Seq<u8>
    decreases end - i,
{
    if i < end {
        be16_bytes((c + i * nw) as u16) + be16_bytes((0x1_0000 - same_chunk(end - i)) as u16)
            + same_ops(c, nw, i + same_chunk(end - i), end)
    } else {
        Seq::empty()
    }
}

/// The data words of a repetition.
pub open spec fn same_data(items: Seq<Seq<u8>>, i: int, end: int) -> Seq<u8>
    decreases end - i,
{
    if i < end {
        items[i] + same_data(items, i + same_chunk(end - i), end)
    } else {
        Seq::empty()
    }
}

/// The ops of one run.
pub open spec fn op4_run_ops(kind: RunKind, c: int, nw: int, i: int, end: int) -> Seq<u8> {
    match kind {
        RunKind::Skip => Seq::empty(),
        RunKind::Same => same_ops(c, nw, i, end),
        RunKind::Uniq => be16_bytes((c + i * nw) as u16) + be16_bytes((end - i) as u16),
    }
}

/// The data words of one run.
pub open spec fn op4_run_data(items: Seq<Seq<u8>>, kind: RunKind, i: int, end: int) -> Seq<u8> {
    match kind {
        RunKind::Skip => Seq::empty(),
        RunKind::Same => same_data(items, i, end),
        RunKind::Uniq => flat_items(items, i, end),
    }
}

/// The ops of a column from row `i` on.
pub open spec fn op4_ops(ch: Seq<bool>, items: Seq<Seq<u8>>, c: int, nw: int, i: int) -> Seq<u8>
    decreases ch.len() - i,
{
    if 0 <= i < ch.len() {
        proof {
            lemma_next_run(ch, items, op4_rules(), i);
        }
        let (kind, end) = next_run(ch, items, op4_rules(), i);
        op4_run_ops(kind, c, nw, i, end) + op4_ops(ch, items, c, nw, end)
    } else {
        Seq::empty()
    }
}

/// The data words of a column from row `i` on.
pub open spec fn op4_data(ch: Seq<bool>, items: Seq<Seq<u8>>, i: int) -> Seq<u8>
    decreases ch.len() - i,
{
    if 0 <= i < ch.len() {
        proof {
            lemma_next_run(ch, items, op4_rules(), i);
        }
        let (kind, end) = next_run(ch, items, op4_rules(), i);
        op4_run_data(items, kind, i, end) + op4_data(ch, items, end)
    } else {
        Seq::empty()
    }
}

/// The ops of a plane from byte `at` of a row on.
pub open spec fn op4_op_columns(
    prev: Seq<Seq<u8>>,
    cur: Seq<Seq<u8>>,
    b: Bmhd,
    p: int,
    size: int,
    at: int,
) -> Seq<u8>
    decreases b.row_len() - at,
{
    if at + size <= b.row_len() && size > 0 {
        op4_ops(
            column_changed(prev, cur, b, p, at, size),
            column_items(cur, b, p, at, size),
            at / size,
            b.row_len() / size,
            0,
        ) + op4_op_columns(prev, cur, b, p, size, at + size)
    } else {
        Seq::empty()
    }
}

/// The data words of a plane from byte `at` of a row on.
pub open spec fn op4_data_columns(
    prev: Seq<Seq<u8>>,
    cur: Seq<Seq<u8>>,
    b: Bmhd,
    p: int,
    size: int,
    at: int,
) -> Seq<u8>
    decreases b.row_len() - at,
{
    if at + size <= b.row_len() && size > 0 {
        op4_data(
            column_changed(prev, cur, b, p, at, size),
            column_items(cur, b, p, at, size),
            0,
        ) + op4_data_columns(prev, cur, b, p, size, at + size)
    } else {
        Seq::empty()
    }
}

/// The lists behind the pointer table: the op lists of the eight planes, then
/// their data lists. Lists of unchanged planes are empty.
pub open spec fn op4_lists(prev: Seq<Seq<u8>>, cur: Seq<Seq<u8>>, b: Bmhd, size: int) -> Seq<
    Seq<u8>,
> {
    Seq::new(
        16,
        |s: int|
            {
                let p = if s < 8 {
                    s
                } else {
                    s - 8
                };
                if p >= b.n_planes || !plane_dirty(prev, cur, b, p, size) {
                    Seq::empty()
                } else if s < 8 {
                    op4_op_columns(prev, cur, b, p, size, 0) + be16_bytes(0xFFFF)
                } else {
                    op4_data_columns(prev, cur, b, p, size, 0)
                }
            },
    )
}

/// The operation-4 payload that turns `prev` into `cur`; pointers count 16-bit
/// words, and those to data lists come first.
pub open spec fn op4_body(prev: Seq<Seq<u8>>, cur: Seq<Seq<u8>>, b: Bmhd, size: int) -> Seq<u8> {
    packed(op4_lists(prev, cur, b, size), 2, true)
}

/// Appends the ops and data words of a repetition; the result says whether every op
/// starts where its field can say so.
fn push_same(
    ops: &mut Vec<u8>,
    data: &mut Vec<u8>,
    column: &ColumnRef,
    c: usize,
    nw: usize,
    from: usize,
    end: usize,
) -> (fits: bool)
    requires
        column.valid(),
        c < nw <= 0x1000,
        from <= end <= column.bmhd.height,
    ensures
        final(ops)@ == old(ops)@ + same_ops(c as int, nw as int, from as int, end as int),
        final(data)@ == old(data)@ + same_data(column.items(), from as int, end as int),
        fits == same_fits(c as int, nw as int, from as int, end as int),
{
    let ghost ops0 = ops@;
    let ghost data0 = data@;
    let ghost items = column.items();
    let ghost ci = c as int;
    let ghost ni = nw as int;
    let ghost e = end as int;
    let mut fits: bool = true;
    let mut i: usize = from;
    assert(ops@ + same_ops(ci, ni, from as int, e) =~= ops0 + same_ops(ci, ni, from as int, e));
    assert(data@ + same_data(items, from as int, e) =~= data0 + same_data(items, from as int, e));
    while i < end
        invariant
            column.valid(),
            items == column.items(),
            c < nw <= 0x1000,
            ci == c,
            ni == nw,
            e == end,
            from <= i <= end <= column.bmhd.height,
            ops@ + same_ops(ci, ni, i as int, e) == ops0 + same_ops(ci, ni, from as int, e),
            data@ + same_data(items, i as int, e) == data0 + same_data(items, from as int, e),
            same_fits(ci, ni, from as int, e) == (fits && same_fits(ci, ni, i as int, e)),
        decreases end - i,
    {
        let ghost ops1 = ops@;
        let ghost data1 = data@;
        let n: usize = if end - i > 0x7FFF {
            0x7FFF
        } else {
            end - i
        };
        assert(i * nw <= 0xFFFF * 0x1000) by (nonlinear_arith)
            requires
                i <= 0xFFFF,
                nw <= 0x1000,
        ;
        fits = fits && c + i * nw < 0xFFFF;
        push_be16(ops, (c + i * nw) as u16);
        push_be16(ops, (0x1_0000 - n) as u16);
        column.push_item(data, i);
        proof {
            let rest = same_ops(ci, ni, i + n, e);
            assert(ops@ + rest =~= ops1 + same_ops(ci, ni, i as int, e));
            assert(data@ + same_data(items, i + n, e) =~= data1 + same_data(items, i as int, e));
        }
        i = i + n;
    }
    assert(ops@ =~= ops0 + same_ops(ci, ni, from as int, e));
    assert(data@ =~= data0 + same_data(items, from as int, e));
    fits
}

/// Appends the ops and data words of a column; the result says whether the column has
/// changed, and whether every op starts where its field can say so.
fn encode_op4_column(
    ops: &mut Vec<u8>,
    data: &mut Vec<u8>,
    column: &ColumnRef,
    c: usize,
    nw: usize,
) -> (r: (bool, bool))
    requires
        column.valid(),
        c < nw <= 0x1000,
    ensures
        final(ops)@ == old(ops)@ + op4_ops(
            column.changed(),
            column.items(),
            c as int,
            nw as int,
            0,
        ),
        final(data)@ == old(data)@ + op4_data(column.changed(), column.items(), 0),
        r.0 == column_dirty(column.changed()),
        r.1 == op4_starts_fit(column.changed(), column.items(), c as int, nw as int, 0),
{
    let height: usize = column.bmhd.height as usize;
    let rules: RunRules = op4_rules();
    let ghost ops0 = ops@;
    let ghost data0 = data@;
    let ghost ch = column.changed();
    let ghost items = column.items();
    let ghost ci = c as int;
    let ghost ni = nw as int;
    let mut dirty: bool = false;
    let mut fits: bool = true;
    let mut i: usize = 0;
    assert(ops@ + op4_ops(ch, items, ci, ni, 0) =~= ops0 + op4_ops(ch, items, ci, ni, 0));
    assert(data@ + op4_data(ch, items, 0) =~= data0 + op4_data(ch, items, 0));
    while i < height
        invariant
            column.valid(),
            height == column.bmhd.height,
            rules == op4_rules(),
            ch == column.changed(),
            items == column.items(),
            ch.len() == height,
            c < nw <= 0x1000,
            ci == c,
            ni == nw,
            i <= height,
            ops@ + op4_ops(ch, items, ci, ni, i as int) == ops0 + op4_ops(ch, items, ci, ni, 0),
            data@ + op4_data(ch, items, i as int) == data0 + op4_data(ch, items, 0),
            dirty == exists|y: int| 0 <= y < i && ch[y],
            op4_starts_fit(ch, items, ci, ni, 0) == (fits && op4_starts_fit(
                ch,
                items,
                ci,
                ni,
                i as int,
            )),
        decreases height - i,
    {
        let ghost ops1 = ops@;
        let ghost data1 = data@;
        proof {
            lemma_next_run(ch, items, rules, i as int);
        }
        let (kind, end) = column.find_run(&rules, i);
        assert(i * nw <= 0xFFFF * 0x1000) by (nonlinear_arith)
            requires
                i <= 0xFFFF,
                nw <= 0x1000,
        ;
        match kind {
            RunKind::Skip => {},
            RunKind::Same => {
                let same: bool = push_same(ops, data, column, c, nw, i, end);
                fits = fits && same;
                dirty = true;
                assert(ch[i as int]);
            },
            RunKind::Uniq => {
                push_be16(ops, (c + i * nw) as u16);
                push_be16(ops, (end - i) as u16);
                fits = fits && c + i * nw < 0xFFFF;
                column.push_items(data, i, end);
                dirty = true;
                assert(ch[i as int]);
            },
        }
        proof {
            assert(ops@ =~= ops1 + op4_run_ops(kind, ci, ni, i as int, end as int));
            assert(data@ =~= data1 + op4_run_data(items, kind, i as int, end as int));
            assert(ops@ + op4_ops(ch, items, ci, ni, end as int) =~= ops1 + op4_ops(
                ch,
                items,
                ci,
                ni,
                i as int,
            ));
            assert(data@ + op4_data(ch, items, end as int) =~= data1 + op4_data(
                ch,
                items,
                i as int,
            ));
        }
        i = end;
    }
    assert(ops@ =~= ops0 + op4_ops(ch, items, ci, ni, 0));
    assert(data@ =~= data0 + op4_data(ch, items, 0));
    (dirty, fits)
}

/// Encodes one plane: its op list and its data list, both empty where nothing has changed,
/// and whether every op starts where its field can say so.
#[verifier::spinoff_prover]
#[verifier::rlimit(30)]
fn encode_op4_plane(
    prev_planar: &[Vec<u8>],
    cur_planar: &[Vec<u8>],
    bmhd: &Bmhd,
    p: usize,
    size: usize,
) -> (r: (Vec<u8>, Vec<u8>, bool))
    requires
        prev_planar@.len() == bmhd.height * bmhd.rows_per_line(),
        cur_planar@.len() == bmhd.height * bmhd.rows_per_line(),
        holds_colour(rows(prev_planar@), *bmhd),
        holds_colour(rows(cur_planar@), *bmhd),
        p < bmhd.n_planes,
        p < 8,
        size == 2 || size == 4,
        bmhd.row_len() % size as int == 0,
    ensures
        r.0@ == op4_lists(rows(prev_planar@), rows(cur_planar@), *bmhd, size as int)[p as int],
        r.1@ == op4_lists(rows(prev_planar@), rows(cur_planar@), *bmhd, size as int)[p + 8],
        r.2 == op4_plane_fits(
            rows(prev_planar@),
            rows(cur_planar@),
            *bmhd,
            p as int,
            size as int,
            bmhd.row_len(),
        ),
{
    let row_bytes: usize = bmhd.row_bytes();
    let nw: usize = row_bytes / size;
    let ghost prev = rows(prev_planar@);
    let ghost cur = rows(cur_planar@);
    let ghost sz = size as int;
    let ghost b = *bmhd;
    let ghost pi = p as int;
    let ghost all_ops = op4_op_columns(prev, cur, b, pi, sz, 0);
    let ghost all_data = op4_data_columns(prev, cur, b, pi, sz, 0);
    let mut op_list: Vec<u8> = Vec::new();
    let mut data_list: Vec<u8> = Vec::new();
    let mut dirty: bool = false;
    let mut fits: bool = true;
    let mut at: usize = 0;
    assert(op_list@ + all_ops =~= all_ops);
    assert(data_list@ + all_data =~= all_data);
    while at < row_bytes
        invariant
            prev_planar@.len() == bmhd.height * bmhd.rows_per_line(),
            cur_planar@.len() == bmhd.height * bmhd.rows_per_line(),
            holds_colour(rows(prev_planar@), *bmhd),
            holds_colour(rows(cur_planar@), *bmhd),
            prev == rows(prev_planar@),
            cur == rows(cur_planar@),
            b == *bmhd,
            row_bytes == b.row_len(),
            p < bmhd.n_planes,
            pi == p,
            sz == size,
            size == 2 || size == 4,
            row_bytes % size == 0,
            nw == row_bytes / size,
            at <= row_bytes,
            at % size == 0,
            op_list@ + op4_op_columns(prev, cur, b, pi, sz, at as int) == all_ops,
            data_list@ + op4_data_columns(prev, cur, b, pi, sz, at as int) == all_data,
            dirty == exists|a: int|
                0 <= a < at && a % sz == 0 && column_dirty(
                    #[trigger] column_changed(prev, cur, b, pi, a, sz),
                ),
            fits == op4_plane_fits(prev, cur, b, pi, sz, at as int),
        decreases row_bytes - at,
    {
        assert(at + size <= row_bytes && (at + size) % size as int == 0 && at / size < nw && nw
            <= 0x1000);
        let column = ColumnRef {
            prev: prev_planar,
            cur: cur_planar,
            bmhd: *bmhd,
            plane: p,
            at: at,
            size: size,
        };
        let ghost ops0 = op_list@;
        let ghost data0 = data_list@;
        let (changed, starts_fit) = encode_op4_column(
            &mut op_list,
            &mut data_list,
            &column,
            at / size,
            nw,
        );
        let ghost ch = column_changed(prev, cur, b, pi, at as int, sz);
        let ghost items = column_items(cur, b, pi, at as int, sz);
        assert(column.changed() == ch);
        assert(column.items() == items);
        proof {
            assert(op_list@ + op4_op_columns(prev, cur, b, pi, sz, at + sz) =~= ops0
                + op4_op_columns(prev, cur, b, pi, sz, at as int));
            assert(data_list@ + op4_data_columns(prev, cur, b, pi, sz, at + sz) =~= data0
                + op4_data_columns(prev, cur, b, pi, sz, at as int));
            lemma_dirty_step(prev, cur, b, pi, sz, at as int);
            lemma_fits_step(prev, cur, b, pi, sz, at as int);
        }
        dirty = dirty || changed;
        fits = fits && starts_fit;
        at += size;
    }
    assert(op_list@ =~= all_ops);
    assert(data_list@ =~= all_data);
    assert(dirty == plane_dirty(prev, cur, b, pi, sz)) by {
        if plane_dirty(prev, cur, b, pi, sz) {
            let a = choose|a: int|
                0 <= a && a + sz <= b.row_len() && a % sz == 0 && column_dirty(
                    #[trigger] column_changed(prev, cur, b, pi, a, sz),
                );
            assert(0 <= a < at);
        }
        if dirty {
            let a = choose|a: int|
                0 <= a < at && a % sz == 0 && column_dirty(
                    #[trigger] column_changed(prev, cur, b, pi, a, sz),
                );
            assert(a + sz <= b.row_len());
        }
    }
    if dirty {
        push_be16(&mut op_list, 0xFFFF);
    } else {
        op_list = Vec::new();
        data_list = Vec::new();
    }
    (op_list, data_list, fits)
}

/// What encoding the step from one bitmap to the next gives: the payload, or a fault of
/// the bitmaps' shape, or that a change starts too far into its plane for an op to say so.
pub open spec fn op4_encoded(
    prev: Seq<Seq<u8>>,
    cur: Seq<Seq<u8>>,
    b: Bmhd,
    long_data: bool,
) -> Result<Seq<u8>, IffError> {
    let size = item_size(long_data);
    let count = b.height * b.rows_per_line();
    if prev.len() != count || cur.len() != count {
        Err(
            IffError::Invalid(
                Reason::RowCount {
                    op: "4",
                    prev: prev.len() as usize,
                    cur: cur.len() as usize,
                    expected: count as usize,
                },
            ),
        )
    } else if b.n_planes > 8 {
        Err(IffError::Unsupported(Reason::TooManyPlanes { op: "4", planes: b.n_planes }))
    } else if b.row_len() % size as int != 0 {
        Err(
            IffError::Unsupported(
                Reason::RowWidth {
                    op: "4 encode",
                    row_bytes: b.row_len() as usize,
                    unit: "word size",
                    size: size,
                },
            ),
        )
    } else if !op4_fits(prev, cur, b, size as int) {
        Err(IffError::unsupported("ANIM op 4 encode: word position beyond a short offset"))
    } else {
        Ok(op4_body(prev, cur, b, size as int))
    }
}

/// Encodes the payload that turns one bitmap into the next: short fields, an op
/// list per plane, run-length coded, vertical.
#[verifier::loop_isolation(false)]
pub fn encode_op4_body(
    prev_planar: &[Vec<u8>],
    cur_planar: &[Vec<u8>],
    bmhd: &Bmhd,
    long_data: bool,
) -> (r: Result<Vec<u8>, IffError>)
    requires
        prev_planar@.len() == bmhd.height * bmhd.rows_per_line() && cur_planar@.len()
            == bmhd.height * bmhd.rows_per_line() && bmhd.n_planes <= 8 && bmhd.row_len()
            % item_size(long_data) as int == 0 ==> holds_colour(rows(prev_planar@), *bmhd)
            && holds_colour(rows(cur_planar@), *bmhd),
    ensures
        viewed(r) == op4_encoded(rows(prev_planar@), rows(cur_planar@), *bmhd, long_data),
{
    let row_bytes: usize = bmhd.row_bytes();
    let expected: usize = bmhd.row_count();
    let size: usize = item_size(long_data);
    if prev_planar.len() != expected || cur_planar.len() != expected {
        return Err(
            IffError::Invalid(
                Reason::RowCount {
                    op: "4",
                    prev: prev_planar.len(),
                    cur: cur_planar.len(),
                    expected: expected,
                },
            ),
        );
    }
    if bmhd.n_planes > 8 {
        return Err(
            IffError::Unsupported(Reason::TooManyPlanes { op: "4", planes: bmhd.n_planes }),
        );
    }
    if row_bytes % size != 0 {
        return Err(
            IffError::Unsupported(
                Reason::RowWidth {
                    op: "4 encode",
                    row_bytes: row_bytes,
                    unit: "word size",
                    size: size,
                },
            ),
        );
    }
    let ghost prev = rows(prev_planar@);
    let ghost cur = rows(cur_planar@);
    let ghost sz = size as int;
    let n_planes: usize = bmhd.n_planes as usize;
    let mut op_lists: Vec<Vec<u8>> = Vec::new();
    let mut data_lists: Vec<Vec<u8>> = Vec::new();
    let mut fits: bool = true;
    let mut p: usize = 0;
    let ghost all = op4_lists(prev, cur, *bmhd, sz);
    while p < 8
        invariant
            p <= 8,
            op_lists@.len() == p,
            data_lists@.len() == p,
            forall|s: int| 0 <= s < p ==> #[trigger] op_lists@[s]@ == all[s],
            forall|s: int| 0 <= s < p ==> #[trigger] data_lists@[s]@ == all[s + 8],
            fits == forall|q: int|
                0 <= q < p && q < bmhd.n_planes ==> #[trigger] op4_plane_fits(
                    prev,
                    cur,
                    *bmhd,
                    q,
                    sz,
                    bmhd.row_len(),
                ),
        decreases 8 - p,
    {
        let (op_list, data_list, plane_fits) = if p < n_planes {
            encode_op4_plane(prev_planar, cur_planar, bmhd, p, size)
        } else {
            (Vec::new(), Vec::new(), true)
        };
        fits = fits && plane_fits;
        assert(op_list@ =~= all[p as int]);
        assert(data_list@ =~= all[p + 8]);
        op_lists.push(op_list);
        data_lists.push(data_list);
        p += 1;
    }
    if !fits {
        return Err(
            IffError::unsupported("ANIM op 4 encode: word position beyond a short offset"),
        );
    }
    op_lists.append(&mut data_lists);
    assert(list_views(op_lists@) =~= all);
    Ok(pack_lists(&op_lists, 2, true))
}

/// Every op of a repetition starts where a short field can say so; the value
/// with all bits set is not free, it ends a list.
pub open spec fn same_fits(c: int, nw: int, i: int, end: int) -> bool
    decreases end - i,
{
    i < end ==> c + i * nw < 0xFFFF && same_fits(c, nw, i + same_chunk(end - i), end)
}

/// Every op of a column from row `i` on starts where a short field can say so.
pub open spec fn op4_starts_fit(
    ch: Seq<bool>,
    items: Seq<Seq<u8>>,
    c: int,
    nw: int,
    i: int,
) -> bool
    decreases ch.len() - i,
{
    if 0 <= i < ch.len() {
        proof {
            lemma_next_run(ch, items, op4_rules(), i);
        }
        let (kind, end) = next_run(ch, items, op4_rules(), i);
        &&& kind == RunKind::Same ==> same_fits(c, nw, i, end)
        &&& kind == RunKind::Uniq ==> c + i * nw < 0xFFFF
        &&& op4_starts_fit(ch, items, c, nw, end)
    } else {
        true
    }
}

/// Every op of a plane, in the columns below byte `end` of a row, starts where a short
/// field can say so.
pub open spec fn op4_plane_fits(
    prev: Seq<Seq<u8>>,
    cur: Seq<Seq<u8>>,
    b: Bmhd,
    p: int,
    size: int,
    end: int,
) -> bool {
    forall|at: int|
        0 <= at && at + size <= end && at % size == 0 ==> op4_starts_fit(
            #[trigger] column_changed(prev, cur, b, p, at, size),
            column_items(cur, b, p, at, size),
            at / size,
            b.row_len() / size,
            0,
        )
}

/// Every op of the payload starts where a short field can say so.
pub open spec fn op4_fits(prev: Seq<Seq<u8>>, cur: Seq<Seq<u8>>, b: Bmhd, size: int) -> bool {
    forall|p: int|
        0 <= p < b.n_planes ==> #[trigger] op4_plane_fits(prev, cur, b, p, size, b.row_len())
}

/// One more column of a plane.
proof fn lemma_fits_step(
    prev: Seq<Seq<u8>>,
    cur: Seq<Seq<u8>>,
    b: Bmhd,
    p: int,
    size: int,
    at: int,
)
    requires
        size == 2 || size == 4,
        0 <= at,
        at % size == 0,
    ensures
        op4_plane_fits(prev, cur, b, p, size, at + size) == (op4_plane_fits(
            prev,
            cur,
            b,
            p,
            size,
            at,
        ) && op4_starts_fit(
            column_changed(prev, cur, b, p, at, size),
            column_items(cur, b, p, at, size),
            at / size,
            b.row_len() / size,
            0,
        )),
{
    let ch = column_changed(prev, cur, b, p, at, size);
    if op4_plane_fits(prev, cur, b, p, size, at) && op4_starts_fit(
        ch,
        column_items(cur, b, p, at, size),
        at / size,
        b.row_len() / size,
        0,
    ) {
        assert forall|a: int| 0 <= a && a + size <= at + size && a % size == 0 implies
            op4_starts_fit(
            #[trigger] column_changed(prev, cur, b, p, a, size),
            column_items(cur, b, p, a, size),
            a / size,
            b.row_len() / size,
            0,
        ) by {
            if a != at {
                assert(a + size <= at);
            }
        }
    }
    if op4_plane_fits(prev, cur, b, p, size, at + size) {
        assert forall|a: int| 0 <= a && a + size <= at && a % size == 0 implies op4_starts_fit(
            #[trigger] column_changed(prev, cur, b, p, a, size),
            column_items(cur, b, p, a, size),
            a / size,
            b.row_len() / size,
            0,
        ) by {}
    }
}

/// The two fields of an op are read back.
proof fn lemma_fields(d: Seq<u8>, oc: int, x: u16, y: u16)
    requires
        lies_at(d, oc, be16_bytes(x) + be16_bytes(y)),
    ensures
        oc + 4 <= d.len(),
        op4_field(d, false, oc) == x,
        op4_field(d, false, oc + 2) == y,
{
    let f = be16_bytes(x) + be16_bytes(y);
    lemma_lies_byte(d, oc, f, 0);
    lemma_lies_byte(d, oc, f, 1);
    lemma_lies_byte(d, oc, f, 2);
    lemma_lies_byte(d, oc, f, 3);
}

/// Where the run of a column starts, counted in words of the plane.
proof fn lemma_word_place(b: Bmhd, size: int, at: int, row: int, n: int)
    requires
        size == 2 || size == 4,
        b.row_len() % size == 0,
        0 <= at,
        at % size == 0,
        at + size <= b.row_len(),
        0 <= row,
        0 < n,
        row + n <= b.height,
    ensures
        ({
            let nw = b.row_len() / size;
            let start = at / size + row * nw;
            &&& 0 <= start
            &&& start % nw * size == at
            &&& start / nw == row
            &&& !past_end(b, size, start, n)
        }),
{
    let nw = b.row_len() / size;
    let c = at / size;
    let start = c + row * nw;
    assert(0 <= c < nw);
    assert(c * size == at);
    vstd::arithmetic::div_mod::lemma_fundamental_div_mod_converse(start, nw, row, c);
    let h = b.height as int;
    assert(start + (n - 1) * nw < h * nw && start >= 0) by (nonlinear_arith)
        requires
            start == c + row * nw,
            0 <= c < nw,
            0 <= row,
            row + n <= h,
    ;
}

/// Reading back the ops of a repetition writes it.
proof fn lemma_op4_same(
    d: Seq<u8>,
    b: Bmhd,
    p: int,
    at: int,
    opts: Op4Options,
    rs: Seq<Seq<u8>>,
    items: Seq<Seq<u8>>,
    oc: int,
    dc: int,
    row: int,
    end: int,
)
    requires
        !opts.long_offsets,
        b.row_len() % item_size(opts.long_data) as int == 0,
        0 <= at,
        at % item_size(opts.long_data) as int == 0,
        at + item_size(opts.long_data) <= b.row_len(),
        items.len() == b.height,
        forall|k: int|
            0 <= k < items.len() ==> (#[trigger] items[k]).len() == item_size(opts.long_data),
        0 <= row < end <= b.height,
        forall|k: int| row <= k < end ==> #[trigger] items[k] == items[row],
        same_fits(
            at / item_size(opts.long_data) as int,
            b.row_len() / item_size(opts.long_data) as int,
            row,
            end,
        ),
        lies_at(
            d,
            oc,
            same_ops(
                at / item_size(opts.long_data) as int,
                b.row_len() / item_size(opts.long_data) as int,
                row,
                end,
            ),
        ),
        lies_at(d, dc, same_data(items, row, end)),
    ensures
        ({
            let size = item_size(opts.long_data) as int;
            op4_list(d, b, p, opts, rs, oc, dc) == op4_list(
                d,
                b,
                p,
                opts,
                write_run(rs, b, p, at, row, items.subrange(row, end)),
                oc + same_ops(at / size, b.row_len() / size, row, end).len(),
                dc + same_data(items, row, end).len(),
            )
        }),
    decreases end - row,
{
    let size = item_size(opts.long_data) as int;
    let nw = b.row_len() / size;
    let c = at / size;
    let n = same_chunk(end - row);
    let mid = row + n;
    let start = c + row * nw;
    lemma_word_place(b, size, at, row, n);
    let head = be16_bytes(start as u16) + be16_bytes((0x1_0000 - n) as u16);
    let ops_rest = same_ops(c, nw, mid, end);
    let data_rest = same_data(items, mid, end);
    lemma_lies_split(d, oc, head, ops_rest);
    lemma_fields(d, oc, start as u16, (0x1_0000 - n) as u16);
    lemma_lies_split(d, dc, items[row], data_rest);
    lemma_same_read(d, dc, items, row, mid, size);
    let next = write_run(rs, b, p, at, row, items.subrange(row, mid));
    assert(op4_list(d, b, p, opts, rs, oc, dc) == op4_list(
        d,
        b,
        p,
        opts,
        next,
        oc + 4,
        dc + size,
    ));
    if mid < end {
        assert forall|k: int| mid <= k < end implies #[trigger] items[k] == items[mid] by {
            assert(items[mid] == items[row]);
        }
        lemma_op4_same(d, b, p, at, opts, next, items, oc + 4, dc + size, mid, end);
        lemma_write_run_join(rs, b, p, at, size, row, mid, end, items);
    }
}

/// Reading back the op of a literal run writes it.
proof fn lemma_op4_uniq(
    d: Seq<u8>,
    b: Bmhd,
    p: int,
    at: int,
    opts: Op4Options,
    rs: Seq<Seq<u8>>,
    items: Seq<Seq<u8>>,
    oc: int,
    dc: int,
    row: int,
    end: int,
)
    requires
        !opts.long_offsets,
        b.row_len() % item_size(opts.long_data) as int == 0,
        0 <= at,
        at % item_size(opts.long_data) as int == 0,
        at + item_size(opts.long_data) <= b.row_len(),
        items.len() == b.height,
        forall|k: int|
            0 <= k < items.len() ==> (#[trigger] items[k]).len() == item_size(opts.long_data),
        0 <= row < end <= b.height,
        end - row <= 0x7FFF,
        at / item_size(opts.long_data) as int + row * (b.row_len() / item_size(
            opts.long_data,
        ) as int) < 0xFFFF,
        lies_at(
            d,
            oc,
            op4_run_ops(
                RunKind::Uniq,
                at / item_size(opts.long_data) as int,
                b.row_len() / item_size(opts.long_data) as int,
                row,
                end,
            ),
        ),
        lies_at(d, dc, flat_items(items, row, end)),
    ensures
        op4_list(d, b, p, opts, rs, oc, dc) == op4_list(
            d,
            b,
            p,
            opts,
            write_run(rs, b, p, at, row, items.subrange(row, end)),
            oc + 4,
            dc + flat_items(items, row, end).len(),
        ),
{
    let size = item_size(opts.long_data) as int;
    let start = at / size + row * (b.row_len() / size);
    lemma_word_place(b, size, at, row, end - row);
    lemma_fields(d, oc, start as u16, (end - row) as u16);
    lemma_items_read(d, dc, items, row, end, size);
}

/// The state of a column that is about to be read back from `row` on.
spec fn ready(
    d: Seq<u8>,
    b: Bmhd,
    p: int,
    at: int,
    opts: Op4Options,
    rs: Seq<Seq<u8>>,
    prev: Seq<Seq<u8>>,
    cur: Seq<Seq<u8>>,
    oc: int,
    dc: int,
    row: int,
    from: int,
) -> bool {
    let size = item_size(opts.long_data) as int;
    let ch = column_changed(prev, cur, b, p, at, size);
    let items = column_items(cur, b, p, at, size);
    &&& !opts.long_offsets
    &&& shaped(prev, b)
    &&& shaped(cur, b)
    &&& rs.len() == b.height * b.rows_per_line()
    &&& 0 <= p < b.rows_per_line()
    &&& 0 <= at
    &&& at % size == 0
    &&& b.row_len() % size == 0
    &&& at + size <= b.row_len()
    &&& 0 <= row <= b.height
    &&& 0 <= from <= b.height
    &&& forall|y: int|
        row <= y < b.height ==> #[trigger] column_items(rs, b, p, at, size)[y] == column_items(
            prev,
            b,
            p,
            at,
            size,
        )[y]
    &&& op4_starts_fit(ch, items, at / size, b.row_len() / size, from)
    &&& lies_at(d, oc, op4_ops(ch, items, at / size, b.row_len() / size, from))
    &&& lies_at(d, dc, op4_data(ch, items, from))
}

/// The list from a column on is the list behind it, on the bitmap with the column
/// written.
spec fn column_read(
    d: Seq<u8>,
    b: Bmhd,
    p: int,
    at: int,
    opts: Op4Options,
    rs: Seq<Seq<u8>>,
    prev: Seq<Seq<u8>>,
    cur: Seq<Seq<u8>>,
    oc: int,
    dc: int,
    row: int,
) -> bool {
    let size = item_size(opts.long_data) as int;
    let ch = column_changed(prev, cur, b, p, at, size);
    let items = column_items(cur, b, p, at, size);
    op4_list(d, b, p, opts, rs, oc, dc) == op4_list(
        d,
        b,
        p,
        opts,
        write_run(rs, b, p, at, row, items.subrange(row, b.height as int)),
        oc + op4_ops(ch, items, at / size, b.row_len() / size, row).len(),
        dc + op4_data(ch, items, row).len(),
    )
}

proof fn lemma_op4_column(
    d: Seq<u8>,
    b: Bmhd,
    p: int,
    at: int,
    opts: Op4Options,
    rs: Seq<Seq<u8>>,
    prev: Seq<Seq<u8>>,
    cur: Seq<Seq<u8>>,
    oc: int,
    dc: int,
    row: int,
)
    requires
        ready(d, b, p, at, opts, rs, prev, cur, oc, dc, row, row),
    ensures
        column_read(d, b, p, at, opts, rs, prev, cur, oc, dc, row),
    decreases b.height - row, 1int,
{
    let h = b.height as int;
    let size = item_size(opts.long_data) as int;
    let ch = column_changed(prev, cur, b, p, at, size);
    let items = column_items(cur, b, p, at, size);
    let c = at / size;
    let nw = b.row_len() / size;
    assert forall|k: int| 0 <= k < items.len() implies (#[trigger] items[k]).len() == size by {
        lemma_row_bounds(b, k, p);
        assert(cur[row_index(b, k, p)].len() == b.row_len());
    }
    if row < h {
        lemma_next_run(ch, items, op4_rules(), row);
        let (kind, end) = next_run(ch, items, op4_rules(), row);
        let ops = op4_run_ops(kind, c, nw, row, end);
        let data = op4_run_data(items, kind, row, end);
        lemma_lies_split(d, oc, ops, op4_ops(ch, items, c, nw, end));
        lemma_lies_split(d, dc, data, op4_data(ch, items, end));
        let oc2 = oc + ops.len();
        let dc2 = dc + data.len();
        match kind {
            RunKind::Skip => {
                assert forall|y: int| row <= y < end implies #[trigger] column_items(
                    rs,
                    b,
                    p,
                    at,
                    size,
                )[y] == items[y] by {
                    assert(!ch[y]);
                    lemma_row_bounds(b, y, p);
                    assert(prev[row_index(b, y, p)].len() == b.row_len());
                }
                lemma_op4_column(d, b, p, at, opts, rs, prev, cur, oc2, dc2, end);
                lemma_write_run_skip(rs, b, p, at, size, row, end, items);
            },
            RunKind::Same => {
                lemma_op4_same(d, b, p, at, opts, rs, items, oc, dc, row, end);
                lemma_op4_rest(d, b, p, at, opts, rs, prev, cur, oc2, dc2, row, end);
                lemma_write_run_join(rs, b, p, at, size, row, end, h, items);
            },
            RunKind::Uniq => {
                lemma_op4_uniq(d, b, p, at, opts, rs, items, oc, dc, row, end);
                lemma_op4_rest(d, b, p, at, opts, rs, prev, cur, oc2, dc2, row, end);
                lemma_write_run_join(rs, b, p, at, size, row, end, h, items);
            },
        }
    } else {
        let none = items.subrange(row, h);
        assert(none.len() == 0);
        assert(write_run(rs, b, p, at, row, none) =~= rs);
    }
}

/// The part of a column below a run that has been written.
proof fn lemma_op4_rest(
    d: Seq<u8>,
    b: Bmhd,
    p: int,
    at: int,
    opts: Op4Options,
    rs: Seq<Seq<u8>>,
    prev: Seq<Seq<u8>>,
    cur: Seq<Seq<u8>>,
    oc: int,
    dc: int,
    row: int,
    end: int,
)
    requires
        ready(d, b, p, at, opts, rs, prev, cur, oc, dc, row, end),
        row < end,
    ensures
        ({
            let items = column_items(cur, b, p, at, item_size(opts.long_data) as int);
            column_read(
                d,
                b,
                p,
                at,
                opts,
                write_run(rs, b, p, at, row, items.subrange(row, end)),
                prev,
                cur,
                oc,
                dc,
                end,
            )
        }),
    decreases b.height - row, 0int,
{
    let size = item_size(opts.long_data) as int;
    let items = column_items(cur, b, p, at, size);
    let part = items.subrange(row, end);
    let next = write_run(rs, b, p, at, row, part);
    assert forall|y: int| end <= y < b.height implies #[trigger] column_items(
        next,
        b,
        p,
        at,
        size,
    )[y] == column_items(prev, b, p, at, size)[y] by {
        lemma_items_below(rs, b, p, at, size, row, end, part, y);
        assert(column_items(rs, b, p, at, size)[y] == column_items(prev, b, p, at, size)[y]);
    }
    lemma_op4_column(d, b, p, at, opts, next, prev, cur, oc, dc, end);
}

/// Reading back the columns of a plane.
proof fn lemma_op4_plane(
    d: Seq<u8>,
    b: Bmhd,
    p: int,
    opts: Op4Options,
    rs: Seq<Seq<u8>>,
    prev: Seq<Seq<u8>>,
    cur: Seq<Seq<u8>>,
    oc: int,
    dc: int,
    at: int,
)
    requires
        !opts.long_offsets,
        shaped(rs, b),
        shaped(prev, b),
        shaped(cur, b),
        0 <= p < b.n_planes,
        0 <= at <= b.row_len(),
        at % item_size(opts.long_data) as int == 0,
        b.row_len() % item_size(opts.long_data) as int == 0,
        op4_fits(prev, cur, b, item_size(opts.long_data) as int),
        half_done(rs, prev, cur, b, p, at),
        forall|i: int|
            0 <= i < rs.len() && plane_of(b, i) != p ==> #[trigger] rs[i] == merged(
                prev,
                cur,
                b,
                p,
            )[i],
        lies_at(
            d,
            oc,
            op4_op_columns(prev, cur, b, p, item_size(opts.long_data) as int, at) + be16_bytes(
                0xFFFF,
            ),
        ),
        lies_at(d, dc, op4_data_columns(prev, cur, b, p, item_size(opts.long_data) as int, at)),
    ensures
        op4_list(d, b, p, opts, rs, oc, dc) == (
            merged(prev, cur, b, p + 1),
            Ok::<(), IffError>(()),
        ),
    decreases b.row_len() - at,
{
    let size = item_size(opts.long_data) as int;
    let end = be16_bytes(0xFFFF);
    if at < b.row_len() {
        let ch = column_changed(prev, cur, b, p, at, size);
        let items = column_items(cur, b, p, at, size);
        assert(at + size <= b.row_len());
        let ops = op4_ops(ch, items, at / size, b.row_len() / size, 0);
        let data = op4_data(ch, items, 0);
        let op_rest = op4_op_columns(prev, cur, b, p, size, at + size);
        assert(op4_op_columns(prev, cur, b, p, size, at) + end =~= ops + (op_rest + end));
        lemma_lies_split(d, oc, ops, op_rest + end);
        lemma_lies_split(d, dc, data, op4_data_columns(prev, cur, b, p, size, at + size));
        assert forall|y: int| 0 <= y < b.height implies #[trigger] column_items(
            rs,
            b,
            p,
            at,
            size,
        )[y] == column_items(prev, b, p, at, size)[y] by {
            lemma_half_items(rs, prev, cur, b, p, at, size, y);
        }
        assert(op4_plane_fits(prev, cur, b, p, size, b.row_len()));
        lemma_op4_column(d, b, p, at, opts, rs, prev, cur, oc, dc, 0);
        assert(items.subrange(0, b.height as int) =~= items);
        lemma_column_written(rs, prev, cur, b, p, at, size);
        let next = write_run(rs, b, p, at, 0, items);
        lemma_op4_plane(
            d,
            b,
            p,
            opts,
            next,
            prev,
            cur,
            oc + ops.len(),
            dc + data.len(),
            at + size,
        );
    } else {
        assert(op4_op_columns(prev, cur, b, p, size, at) + end =~= end);
        lemma_lies_byte(d, oc, end, 0);
        lemma_lies_byte(d, oc, end, 1);
        lemma_plane_done(rs, merged(prev, cur, b, p), prev, cur, b, p);
    }
}

/// A repetition takes an even number of bytes.
proof fn lemma_same_even(c: int, nw: int, items: Seq<Seq<u8>>, size: int, i: int, end: int)
    requires
        size % 2 == 0,
        0 <= i,
        end <= items.len(),
        forall|k: int| 0 <= k < items.len() ==> (#[trigger] items[k]).len() == size,
    ensures
        same_ops(c, nw, i, end).len() % 2 == 0,
        same_data(items, i, end).len() % 2 == 0,
    decreases end - i,
{
    if i < end {
        assert(items[i].len() == size);
        lemma_same_even(c, nw, items, size, i + same_chunk(end - i), end);
    }
}

/// A column takes an even number of bytes.
proof fn lemma_column_even(
    ch: Seq<bool>,
    items: Seq<Seq<u8>>,
    c: int,
    nw: int,
    size: int,
    i: int,
)
    requires
        size % 2 == 0,
        0 <= i,
        items.len() == ch.len(),
        forall|k: int| 0 <= k < items.len() ==> (#[trigger] items[k]).len() == size,
    ensures
        op4_ops(ch, items, c, nw, i).len() % 2 == 0,
        op4_data(ch, items, i).len() % 2 == 0,
    decreases ch.len() - i,
{
    if i < ch.len() {
        lemma_next_run(ch, items, op4_rules(), i);
        let (kind, end) = next_run(ch, items, op4_rules(), i);
        lemma_column_even(ch, items, c, nw, size, end);
        lemma_same_even(c, nw, items, size, i, end);
        lemma_flat_len(items, i, end, size);
        let half = size / 2;
        assert((end - i) * size == 2 * ((end - i) * half)) by (nonlinear_arith)
            requires
                size == 2 * half,
        ;
    }
}

/// The lists of a plane take an even number of bytes.
proof fn lemma_plane_even(
    prev: Seq<Seq<u8>>,
    cur: Seq<Seq<u8>>,
    b: Bmhd,
    p: int,
    size: int,
    at: int,
)
    requires
        shaped(cur, b),
        0 <= p < b.rows_per_line(),
        size == 2 || size == 4,
        0 <= at,
    ensures
        op4_op_columns(prev, cur, b, p, size, at).len() % 2 == 0,
        op4_data_columns(prev, cur, b, p, size, at).len() % 2 == 0,
    decreases b.row_len() - at,
{
    if at + size <= b.row_len() {
        let items = column_items(cur, b, p, at, size);
        assert forall|k: int| 0 <= k < items.len() implies (#[trigger] items[k]).len() == size by {
            lemma_row_bounds(b, k, p);
            assert(cur[row_index(b, k, p)].len() == b.row_len());
        }
        lemma_column_even(
            column_changed(prev, cur, b, p, at, size),
            items,
            at / size,
            b.row_len() / size,
            size,
            0,
        );
        lemma_plane_even(prev, cur, b, p, size, at + size);
    }
}

/// The lists in front of list `n` take an even number of bytes.
proof fn lemma_lists_even(prev: Seq<Seq<u8>>, cur: Seq<Seq<u8>>, b: Bmhd, size: int, n: int)
    requires
        shaped(cur, b),
        size == 2 || size == 4,
        0 <= n <= 16,
    ensures
        lists_len(op4_lists(prev, cur, b, size), n) % 2 == 0,
    decreases n,
{
    if n > 0 {
        lemma_lists_even(prev, cur, b, size, n - 1);
        let p = if n - 1 < 8 {
            n - 1
        } else {
            n - 9
        };
        if p < b.n_planes {
            lemma_plane_even(prev, cur, b, p, size, 0);
        }
    }
}

/// A changed column has data.
proof fn lemma_dirty_data(ch: Seq<bool>, items: Seq<Seq<u8>>, size: int, i: int, y: int)
    requires
        0 <= i <= y < ch.len(),
        ch[y],
        size > 0,
        items.len() == ch.len(),
        forall|k: int| 0 <= k < items.len() ==> (#[trigger] items[k]).len() == size,
    ensures
        op4_data(ch, items, i).len() > 0,
    decreases ch.len() - i,
{
    lemma_next_run(ch, items, op4_rules(), i);
    let (kind, end) = next_run(ch, items, op4_rules(), i);
    match kind {
        RunKind::Skip => {
            assert(y >= end);
            lemma_dirty_data(ch, items, size, end, y);
        },
        RunKind::Same => {
            assert(items[i].len() == size);
        },
        RunKind::Uniq => {
            lemma_flat_len(items, i, end, size);
            assert((end - i) * size > 0) by (nonlinear_arith)
                requires
                    end > i,
                    size > 0,
            ;
        },
    }
}

/// A changed plane has data.
proof fn lemma_dirty_columns(
    prev: Seq<Seq<u8>>,
    cur: Seq<Seq<u8>>,
    b: Bmhd,
    p: int,
    size: int,
    at: int,
    hit: int,
)
    requires
        shaped(cur, b),
        0 <= p < b.rows_per_line(),
        size == 2 || size == 4,
        0 <= at <= hit,
        hit + size <= b.row_len(),
        at % size == 0,
        hit % size == 0,
        column_dirty(column_changed(prev, cur, b, p, hit, size)),
    ensures
        op4_data_columns(prev, cur, b, p, size, at).len() > 0,
    decreases hit - at,
{
    if at < hit {
        lemma_dirty_columns(prev, cur, b, p, size, at + size, hit);
    } else {
        let ch = column_changed(prev, cur, b, p, hit, size);
        let items = column_items(cur, b, p, hit, size);
        let y = choose|y: int| 0 <= y < ch.len() && ch[y];
        assert forall|k: int| 0 <= k < items.len() implies (#[trigger] items[k]).len() == size by {
            lemma_row_bounds(b, k, p);
            assert(cur[row_index(b, k, p)].len() == b.row_len());
        }
        lemma_dirty_data(ch, items, size, 0, y);
    }
}

/// The pointers of a changed plane lead to its lists.
proof fn lemma_op4_pointers(prev: Seq<Seq<u8>>, cur: Seq<Seq<u8>>, b: Bmhd, size: int, p: int)
    requires
        shaped(cur, b),
        b.n_planes <= 8,
        size == 2 || size == 4,
        0 <= p < b.n_planes,
        op4_body(prev, cur, b, size).len() <= 2 * u32::MAX,
        plane_dirty(prev, cur, b, p, size),
    ensures
        ({
            let d = op4_body(prev, cur, b, size);
            let data = 2 * be32(d, 4 * p);
            let ops = 2 * be32(d, 4 * (8 + p));
            &&& 0 < ops < d.len()
            &&& data < d.len()
            &&& lies_at(
                d,
                ops,
                op4_op_columns(prev, cur, b, p, size, 0) + be16_bytes(0xFFFF),
            )
            &&& lies_at(d, data, op4_data_columns(prev, cur, b, p, size, 0))
        }),
{
    let lists = op4_lists(prev, cur, b, size);
    lemma_dirty_lists(prev, cur, b, size, p);
    lemma_lists_even(prev, cur, b, size, p);
    lemma_lists_even(prev, cur, b, size, 8 + p);
    lemma_word_pointer(lists, p);
    lemma_word_pointer(lists, 8 + p);
}

/// The lists of a changed plane are not empty.
proof fn lemma_dirty_lists(prev: Seq<Seq<u8>>, cur: Seq<Seq<u8>>, b: Bmhd, size: int, p: int)
    requires
        shaped(cur, b),
        b.n_planes <= 8,
        size == 2 || size == 4,
        0 <= p < b.n_planes,
        plane_dirty(prev, cur, b, p, size),
    ensures
        ({
            let lists = op4_lists(prev, cur, b, size);
            &&& lists.len() == 16
            &&& lists[p] == op4_op_columns(prev, cur, b, p, size, 0) + be16_bytes(0xFFFF)
            &&& lists[8 + p] == op4_data_columns(prev, cur, b, p, size, 0)
            &&& lists[p].len() > 0
            &&& lists[8 + p].len() > 0
        }),
{
    let hit = choose|at: int|
        0 <= at && at + size <= b.row_len() && at % size == 0 && column_dirty(
            #[trigger] column_changed(prev, cur, b, p, at, size),
        );
    lemma_dirty_columns(prev, cur, b, p, size, 0, hit);
}

/// A pointer that counts words leads to its list.
proof fn lemma_word_pointer(lists: Seq<Seq<u8>>, j: int)
    requires
        lists.len() == 16,
        0 <= j < 16,
        lists[j].len() > 0,
        lists_len(lists, j) % 2 == 0,
        packed(lists, 2, true).len() <= 2 * u32::MAX,
    ensures
        ({
            let d = packed(lists, 2, true);
            let at = 2 * be32(d, 4 * if j < 8 {
                j + 8
            } else {
                j - 8
            });
            0 < at < d.len() && lies_at(d, at, lists[j])
        }),
{
    lemma_pointers_fit(lists, 2, true);
    lemma_packed(lists, 2, true, j);
}

/// A changed plane of an encoded payload is read back.
proof fn lemma_op4_dirty(
    prev: Seq<Seq<u8>>,
    cur: Seq<Seq<u8>>,
    b: Bmhd,
    opts: Op4Options,
    p: int,
)
    requires
        !opts.long_offsets,
        shaped(prev, b),
        shaped(cur, b),
        b.n_planes <= 8,
        b.row_len() % item_size(opts.long_data) as int == 0,
        0 <= p < b.n_planes,
        op4_fits(prev, cur, b, item_size(opts.long_data) as int),
        op4_body(prev, cur, b, item_size(opts.long_data) as int).len() <= 2 * u32::MAX,
        plane_dirty(prev, cur, b, p, item_size(opts.long_data) as int),
    ensures
        ({
            let d = op4_body(prev, cur, b, item_size(opts.long_data) as int);
            let data = 2 * be32(d, 4 * p);
            let ops = 2 * be32(d, 4 * (8 + p));
            op4_list(d, b, p, opts, merged(prev, cur, b, p), ops, data) == (
                merged(prev, cur, b, p + 1),
                Ok::<(), IffError>(()),
            )
        }),
{
    let size = item_size(opts.long_data) as int;
    let d = op4_body(prev, cur, b, size);
    lemma_op4_pointers(prev, cur, b, size, p);
    lemma_plane_start(prev, cur, b, p);
    lemma_op4_plane(
        d,
        b,
        p,
        opts,
        merged(prev, cur, b, p),
        prev,
        cur,
        2 * be32(d, 4 * (8 + p)),
        2 * be32(d, 4 * p),
        0,
    );
}

/// An unchanged plane of an encoded payload has no op list.
proof fn lemma_op4_clean(prev: Seq<Seq<u8>>, cur: Seq<Seq<u8>>, b: Bmhd, size: int, p: int)
    requires
        shaped(prev, b),
        shaped(cur, b),
        b.n_planes <= 8,
        size == 2 || size == 4,
        b.row_len() % size == 0,
        0 <= p < b.n_planes,
        op4_body(prev, cur, b, size).len() <= 2 * u32::MAX,
        !plane_dirty(prev, cur, b, p, size),
    ensures
        be32(op4_body(prev, cur, b, size), 4 * (8 + p)) == 0,
        merged(prev, cur, b, p + 1) == merged(prev, cur, b, p),
{
    let lists = op4_lists(prev, cur, b, size);
    lemma_pointers_fit(lists, 2, true);
    lemma_packed(lists, 2, true, p);
    assert(lists[p].len() == 0);
    lemma_clean_plane(prev, cur, b, p, size);
    assert(merged(prev, cur, b, p + 1) =~= merged(prev, cur, b, p));
}

proof fn lemma_op4_planes(
    prev: Seq<Seq<u8>>,
    cur: Seq<Seq<u8>>,
    b: Bmhd,
    opts: Op4Options,
    p: int,
)
    requires
        !opts.long_offsets,
        shaped(prev, b),
        shaped(cur, b),
        b.n_planes <= 8,
        b.row_len() % item_size(opts.long_data) as int == 0,
        0 <= p <= b.n_planes,
        op4_fits(prev, cur, b, item_size(opts.long_data) as int),
        op4_body(prev, cur, b, item_size(opts.long_data) as int).len() <= 2 * u32::MAX,
        op4_body(prev, cur, b, item_size(opts.long_data) as int).len() <= usize::MAX,
    ensures
        op4_planes(
            op4_body(prev, cur, b, item_size(opts.long_data) as int),
            b,
            opts,
            merged(prev, cur, b, p),
            p,
        ) == (merged(prev, cur, b, b.n_planes as int), Ok::<(), IffError>(())),
    decreases b.n_planes - p,
{
    if p < b.n_planes {
        if plane_dirty(prev, cur, b, p, item_size(opts.long_data) as int) {
            lemma_op4_pointers(prev, cur, b, item_size(opts.long_data) as int, p);
            lemma_op4_dirty(prev, cur, b, opts, p);
        } else {
            lemma_op4_clean(prev, cur, b, item_size(opts.long_data) as int, p);
        }
        lemma_op4_planes(prev, cur, b, opts, p + 1);
    }
}

/// Ops that start above row `top` do not fit.
spec fn fits_below(c: int, nw: int, top: int) -> bool {
    forall|i: int| c + #[trigger] (i * nw) < 0xFFFF ==> i < top
}

/// A repetition takes at most one op per row, and none from row `top` on.
proof fn lemma_same_len(
    items: Seq<Seq<u8>>,
    size: int,
    c: int,
    nw: int,
    i: int,
    end: int,
    top: int,
)
    requires
        0 <= i <= end <= items.len(),
        0 <= size,
        forall|k: int| 0 <= k < items.len() ==> (#[trigger] items[k]).len() == size,
        same_fits(c, nw, i, end),
        fits_below(c, nw, top),
    ensures
        same_ops(c, nw, i, end).len() <= 4 * (end - i),
        i <= top ==> same_ops(c, nw, i, end).len() <= 4 * (top - i),
        i >= top ==> same_ops(c, nw, i, end).len() == 0,
        same_data(items, i, end).len() <= size * (end - i),
    decreases end - i,
{
    if i < end {
        let n = same_chunk(end - i);
        lemma_same_len(items, size, c, nw, i + n, end, top);
        assert(c + i * nw < 0xFFFF);
        assert(size * (end - i) == size * (end - i - n) + size * n && size * n >= size)
            by (nonlinear_arith)
            requires
                n >= 1,
                size >= 0,
        ;
    }
}

/// A column takes at most one op per row, and none from row `top` on.
proof fn lemma_column_len(
    ch: Seq<bool>,
    items: Seq<Seq<u8>>,
    size: int,
    c: int,
    nw: int,
    i: int,
    top: int,
)
    requires
        0 <= i <= ch.len(),
        ch.len() == items.len(),
        0 <= size,
        forall|k: int| 0 <= k < items.len() ==> (#[trigger] items[k]).len() == size,
        op4_starts_fit(ch, items, c, nw, i),
        fits_below(c, nw, top),
    ensures
        i <= top ==> op4_ops(ch, items, c, nw, i).len() <= 4 * (top - i),
        i >= top ==> op4_ops(ch, items, c, nw, i).len() == 0,
        op4_data(ch, items, i).len() <= size * (ch.len() - i),
    decreases ch.len() - i,
{
    if i < ch.len() {
        lemma_next_run(ch, items, op4_rules(), i);
        let (kind, end) = next_run(ch, items, op4_rules(), i);
        lemma_column_len(ch, items, size, c, nw, end, top);
        assert(size * (ch.len() - i) == size * (ch.len() - end) + size * (end - i) && size * (end
            - i) >= 0) by (nonlinear_arith)
            requires
                end > i,
                size >= 0,
        ;
        match kind {
            RunKind::Skip => {},
            RunKind::Same => {
                lemma_same_len(items, size, c, nw, i, end, top);
            },
            RunKind::Uniq => {
                lemma_flat_len(items, i, end, size);
                assert(c + i * nw < 0xFFFF);
                assert((end - i) * size == size * (end - i)) by (nonlinear_arith);
            },
        }
    } else {
        assert(size * (ch.len() - i) == 0) by (nonlinear_arith)
            requires
                ch.len() == i,
        ;
    }
}

/// The rows whose words can be named, in a plane of `nw` words per row.
spec fn last_row(nw: int) -> int {
    if nw >= 2 {
        0x8000
    } else {
        0x1_0000
    }
}

/// The bytes of the columns from byte `at` of a row on.
proof fn lemma_columns_len(
    prev: Seq<Seq<u8>>,
    cur: Seq<Seq<u8>>,
    b: Bmhd,
    p: int,
    size: int,
    at: int,
)
    requires
        shaped(cur, b),
        size == 2 || size == 4,
        b.row_len() % size == 0,
        0 <= p < b.n_planes,
        0 <= at <= b.row_len(),
        at % size == 0,
        op4_fits(prev, cur, b, size),
    ensures
        op4_op_columns(prev, cur, b, p, size, at).len() <= 2 * last_row(b.row_len() / size) * (
        b.row_len() - at),
        op4_data_columns(prev, cur, b, p, size, at).len() <= 0xFFFF * (b.row_len() - at),
    decreases b.row_len() - at,
{
    let nw = b.row_len() / size;
    let top = last_row(nw);
    if at + size <= b.row_len() {
        let ch = column_changed(prev, cur, b, p, at, size);
        let items = column_items(cur, b, p, at, size);
        assert forall|k: int| 0 <= k < items.len() implies (#[trigger] items[k]).len() == size by {
            lemma_row_bounds(b, k, p);
            assert(cur[row_index(b, k, p)].len() == b.row_len());
        }
        assert(op4_plane_fits(prev, cur, b, p, size, b.row_len()));
        let c = at / size;
        assert(0 <= c < nw);
        assert forall|i: int| c + #[trigger] (i * nw) < 0xFFFF implies i < top by {
            assert(i * nw >= (if nw >= 2 {
                2 * i
            } else {
                i
            }) || i < 0) by (nonlinear_arith)
                requires
                    nw >= 1,
            ;
        }
        lemma_column_len(ch, items, size, c, nw, 0, top);
        lemma_columns_len(prev, cur, b, p, size, at + size);
        let left = b.row_len() - at;
        assert(2 * top * left == 2 * top * (left - size) + 2 * top * size && 2 * top * size >= 4
            * top) by (nonlinear_arith)
            requires
                size >= 2,
                top >= 0,
        ;
        let h = b.height as int;
        assert(size * h <= 0xFFFF * size) by (nonlinear_arith)
            requires
                h <= 0xFFFF,
                size > 0,
        ;
    }
}

/// The first `n` lists of a payload stay small enough.
proof fn lemma_lists_len(prev: Seq<Seq<u8>>, cur: Seq<Seq<u8>>, b: Bmhd, size: int, n: int)
    requires
        shaped(cur, b),
        size == 2 || size == 4,
        b.row_len() % size == 0,
        b.n_planes <= 8,
        0 <= n <= 16,
        op4_fits(prev, cur, b, size),
    ensures
        lists_len(op4_lists(prev, cur, b, size), n) <= if n <= 8 {
            0x2000_0002 * n
        } else {
            0x1_0000_0010 + 0x1FFF_E000 * (n - 8)
        },
    decreases n,
{
    if n > 0 {
        lemma_lists_len(prev, cur, b, size, n - 1);
        let p = if n <= 8 {
            n - 1
        } else {
            n - 9
        };
        let w = b.row_len();
        assert(0 <= w <= 0x2000);
        if p < b.n_planes {
            lemma_columns_len(prev, cur, b, p, size, 0);
            let top = last_row(w / size);
            assert(top == 0x8000 || w <= 8) by {
                if size == 2 {
                } else {
                }
            }
            assert(2 * top * w <= 0x2000_0000) by (nonlinear_arith)
                requires
                    0 <= w <= 0x2000,
                    top == 0x8000 || top == 0x1_0000 && w <= 8,
            ;
        }
    }
}

/// A payload fits its 32-bit pointers, which count words.
proof fn lemma_op4_len(prev: Seq<Seq<u8>>, cur: Seq<Seq<u8>>, b: Bmhd, size: int)
    requires
        shaped(cur, b),
        size == 2 || size == 4,
        b.row_len() % size == 0,
        b.n_planes <= 8,
        op4_fits(prev, cur, b, size),
    ensures
        op4_body(prev, cur, b, size).len() <= 2 * u32::MAX,
{
    let lists = op4_lists(prev, cur, b, size);
    lemma_lists_len(prev, cur, b, size, 16);
    lemma_flat_total(lists, 16);
}

/// Applying an encoded payload to the earlier bitmap gives the later one; the mask rows,
/// which the payload does not address, stay those of the earlier.
pub proof fn law_op4_round_trip(
    prev: Seq<Seq<u8>>,
    cur: Seq<Seq<u8>>,
    b: Bmhd,
    bits: u32,
    long_data: bool,
    d: Seq<u8>,
)
    requires
        shaped(prev, b),
        shaped(cur, b),
        op4_options(bits) == Ok::<Op4Options, IffError>(
            Op4Options { long_data: long_data, long_offsets: false },
        ),
        op4_encoded(prev, cur, b, long_data) == Ok::<Seq<u8>, IffError>(d),
        d.len() <= usize::MAX,
    ensures
        op4_applied(d, b, prev, bits) == (
            merged(prev, cur, b, b.n_planes as int),
            Ok::<(), IffError>(()),
        ),
{
    let size = item_size(long_data) as int;
    lemma_op4_len(prev, cur, b, size);
    lemma_pointers_fit(op4_lists(prev, cur, b, size), 2, true);
    lemma_packed(op4_lists(prev, cur, b, size), 2, true, 0);
    lemma_flat_total(op4_lists(prev, cur, b, size), 16);
    lemma_plane_start(prev, cur, b, 0);
    lemma_op4_planes(
        prev,
        cur,
        b,
        Op4Options { long_data: long_data, long_offsets: false },
        0,
    );
}

} // verus!
