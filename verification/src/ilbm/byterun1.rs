//! ByteRun1, the row compression of BODY chunks.
//!
//! A packed row is a list of runs. A control byte below 0x80 precedes that many
//! bytes plus one, taken as they are; one above 0x80 precedes a single byte that
//! stands for 257 minus the control byte copies; 0x80 alone does nothing.

use vstd::prelude::*;
use crate::bytes::{lemma_lies_byte, lemma_lies_split, lies_at, push_all};
use crate::error::IffError;

verus! {

/// The row of `n` bytes that the runs from byte `at` on complete, `acc` being
/// there already, and the position behind the last run.
pub open spec fn unpacked(d: Seq<u8>, at: int, n: int, acc: Seq<u8>) -> Result<
    (Seq<u8>, int),
    IffError,
>
    decreases d.len() - at,
{
    if acc.len() >= n {
        Ok((acc, at))
    } else if at >= d.len() {
        Err(IffError::invalid("ILBM ByteRun1: row truncated"))
    } else if d[at] == 0x80 {
        unpacked(d, at + 1, n, acc)
    } else if d[at] < 0x80 {
        if acc.len() + d[at] + 1 > n {
            Err(IffError::invalid("ILBM ByteRun1: run past the row's end"))
        } else if at + d[at] + 2 > d.len() {
            Err(IffError::invalid("ILBM ByteRun1: row truncated"))
        } else {
            unpacked(d, at + d[at] + 2, n, acc + d.subrange(at + 1, at + d[at] + 2))
        }
    } else {
        if acc.len() + (257 - d[at]) > n {
            Err(IffError::invalid("ILBM ByteRun1: run past the row's end"))
        } else if at + 2 > d.len() {
            Err(IffError::invalid("ILBM ByteRun1: row truncated"))
        } else {
            unpacked(d, at + 2, n, acc + Seq::new((257 - d[at]) as nat, |i: int| d[at + 1]))
        }
    }
}

/// A row that is unpacked is complete.
pub proof fn lemma_unpacked(d: Seq<u8>, at: int, n: int, acc: Seq<u8>)
    requires
        0 <= at,
        acc.len() <= n,
    ensures
        unpacked(d, at, n, acc) matches Ok((row, next)) ==> row.len() == n && at <= next,
    decreases d.len() - at,
{
    if acc.len() < n && at < d.len() {
        if d[at] == 0x80 {
            lemma_unpacked(d, at + 1, n, acc);
        } else if d[at] < 0x80 {
            if acc.len() + d[at] + 1 <= n && at + d[at] + 2 <= d.len() {
                let next = acc + d.subrange(at + 1, at + d[at] + 2);
                lemma_unpacked(d, at + d[at] + 2, n, next);
            }
        } else {
            if acc.len() + (257 - d[at]) <= n && at + 2 <= d.len() {
                let next = acc + Seq::new((257 - d[at]) as nat, |i: int| d[at + 1]);
                lemma_unpacked(d, at + 2, n, next);
            }
        }
    }
}

/// Unpacks the row of `row_bytes` bytes that starts at byte `from`; also the position
/// behind it.
pub fn unpack_row(input: &[u8], from: usize, row_bytes: usize) -> (r: Result<
    (Vec<u8>, usize),
    IffError,
>)
    requires
        from <= input@.len(),
    ensures
        match unpacked(input@, from as int, row_bytes as int, Seq::empty()) {
            Ok((row, next)) => r matches Ok((v, at)) && v@ == row && at == next && from <= at
                <= input@.len() && row.len() == row_bytes,
            Err(e) => r matches Err(f) && f == e,
        },
{
    let total: usize = input.len();
    let mut row: Vec<u8> = Vec::new();
    let mut at: usize = from;
    let ghost target = unpacked(input@, from as int, row_bytes as int, Seq::empty());
    while row.len() < row_bytes
        invariant
            total == input@.len(),
            from <= at <= total,
            row@.len() <= row_bytes,
            target == unpacked(input@, from as int, row_bytes as int, Seq::empty()),
            unpacked(input@, at as int, row_bytes as int, row@) == target,
        decreases total - at,
    {
        if at >= total {
            return Err(IffError::invalid("ILBM ByteRun1: row truncated"));
        }
        let c: u8 = input[at];
        let ghost row0 = row@;
        if c == 0x80 {
            at += 1;
        } else if c < 0x80 {
            let n: usize = c as usize + 1;
            if n > row_bytes - row.len() {
                return Err(IffError::invalid("ILBM ByteRun1: run past the row's end"));
            }
            if n > total - at - 1 {
                return Err(IffError::invalid("ILBM ByteRun1: row truncated"));
            }
            push_all(&mut row, vstd::slice::slice_subrange(input, at + 1, at + 1 + n));
            at += 1 + n;
        } else {
            let n: usize = 257 - c as usize;
            if n > row_bytes - row.len() {
                return Err(IffError::invalid("ILBM ByteRun1: run past the row's end"));
            }
            if total - at < 2 {
                return Err(IffError::invalid("ILBM ByteRun1: row truncated"));
            }
            let v: u8 = input[at + 1];
            row.resize(row.len() + n, v);
            assert(row@ =~= row0 + Seq::new((257 - c) as nat, |i: int| input@[at + 1]));
            at += 2;
        }
    }
    Ok((row, at))
}

/// Unpacks one row of `row_bytes` bytes from the start of `input` and appends it
/// to `out`; the result is the number of bytes read. A faulty row leaves `out` as
/// it was.
pub fn byterun1_decode_row(input: &[u8], row_bytes: usize, out: &mut Vec<u8>) -> (r: Result<
    usize,
    IffError,
>)
    ensures
        match unpacked(input@, 0, row_bytes as int, Seq::empty()) {
            Ok((row, read)) => r == Ok::<usize, IffError>(read as usize) && 0 <= read
                <= input@.len() && final(out)@ == old(out)@ + row,
            Err(e) => r == Err::<usize, IffError>(e) && final(out)@ == old(out)@,
        },
{
    match unpack_row(input, 0, row_bytes) {
        Ok((row, read)) => {
            push_all(out, row.as_slice());
            Ok(read)
        },
        Err(e) => Err(e),
    }
}

/// The end of the run of equal bytes that starts at `i`, known to reach to `j`;
/// a run is at most 128 bytes long.
pub open spec fn run_end(row: Seq<u8>, i: int, j: int) -> int
    decreases row.len() - j,
{
    if j < row.len() && j - i < 128 && row[j] == row[i] {
        run_end(row, i, j + 1)
    } else {
        j
    }
}

/// The end of the literal run that starts at `i`, known to reach to `j`: in front
/// of three equal bytes, after 128 bytes, or with the row.
pub open spec fn literal_end(row: Seq<u8>, i: int, j: int) -> int
    decreases row.len() - j,
{
    if j < row.len() && j - i < 128 && !(j + 2 < row.len() && row[j] == row[j + 1] && row[j]
        == row[j + 2]) {
        literal_end(row, i, j + 1)
    } else {
        j
    }
}

/// A run holds equal bytes, at most 128.
pub proof fn lemma_run_end(row: Seq<u8>, i: int, j: int)
    requires
        0 <= i < j <= row.len(),
        j - i <= 128,
        forall|k: int| i <= k < j ==> row[k] == row[i],
    ensures
        j <= run_end(row, i, j) <= row.len(),
        run_end(row, i, j) - i <= 128,
        forall|k: int| i <= k < run_end(row, i, j) ==> row[k] == row[i],
    decreases row.len() - j,
{
    if j < row.len() && j - i < 128 && row[j] == row[i] {
        lemma_run_end(row, i, j + 1);
    }
}

/// A literal run holds at least one byte and at most 128.
pub proof fn lemma_literal_end(row: Seq<u8>, i: int, j: int)
    requires
        0 <= i < j <= row.len(),
        j - i <= 128,
    ensures
        j <= literal_end(row, i, j) <= row.len(),
        literal_end(row, i, j) - i <= 128,
    decreases row.len() - j,
{
    if j < row.len() && j - i < 128 && !(j + 2 < row.len() && row[j] == row[j + 1] && row[j]
        == row[j + 2]) {
        lemma_literal_end(row, i, j + 1);
    }
}

/// The packed form of a row from byte `i` on: three equal bytes and more as a
/// repetition, all else as it is.
pub open spec fn packed_row(row: Seq<u8>, i: int) -> Seq<u8>
    decreases row.len() - i,
{
    if 0 <= i < row.len() {
        let same = run_end(row, i, i + 1);
        let lit = literal_end(row, i, i + 1);
        proof {
            lemma_run_end(row, i, i + 1);
            lemma_literal_end(row, i, i + 1);
        }
        if same - i >= 3 {
            seq![(257 - (same - i)) as u8, row[i]] + packed_row(row, same)
        } else {
            seq![(lit - i - 1) as u8] + row.subrange(i, lit) + packed_row(row, lit)
        }
    } else {
        Seq::empty()
    }
}

/// Packs one row.
pub fn byterun1_encode_row(row: &[u8]) -> (out: Vec<u8>)
    ensures
        out@ == packed_row(row@, 0),
{
    let n: usize = row.len();
    let mut out: Vec<u8> = Vec::new();
    let mut i: usize = 0;
    assert(out@ + packed_row(row@, 0) =~= packed_row(row@, 0));
    while i < n
        invariant
            n == row@.len(),
            i <= n,
            out@ + packed_row(row@, i as int) == packed_row(row@, 0),
        decreases n - i,
    {
        let ghost out0 = out@;
        let ghost whole = packed_row(row@, i as int);
        let mut same: usize = i + 1;
        while same < n && same - i < 128 && row[same] == row[i]
            invariant
                n == row@.len(),
                i < same <= n,
                same - i <= 128,
                run_end(row@, i as int, same as int) == run_end(row@, i as int, i + 1),
            decreases n - same,
        {
            same += 1;
        }
        if same - i >= 3 {
            out.push((257 - (same - i)) as u8);
            out.push(row[i]);
            proof {
                let head = seq![(257 - (same - i)) as u8, row@[i as int]];
                assert(whole == head + packed_row(row@, same as int));
                assert(out@ =~= out0 + head);
                assert(out@ + packed_row(row@, same as int) =~= out0 + whole);
            }
            i = same;
        } else {
            let mut lit: usize = i + 1;
            while lit < n && lit - i < 128 && !(n - lit > 2 && row[lit] == row[lit + 1]
                && row[lit] == row[lit + 2])
                invariant
                    n == row@.len(),
                    i < lit <= n,
                    lit - i <= 128,
                    literal_end(row@, i as int, lit as int) == literal_end(
                        row@,
                        i as int,
                        i + 1,
                    ),
                decreases n - lit,
            {
                lit += 1;
            }
            out.push((lit - i - 1) as u8);
            push_all(&mut out, vstd::slice::slice_subrange(row, i, lit));
            proof {
                let head = seq![(lit - i - 1) as u8] + row@.subrange(i as int, lit as int);
                assert(whole == head + packed_row(row@, lit as int));
                assert(out@ =~= out0 + head);
                assert(out@ + packed_row(row@, lit as int) =~= out0 + whole);
            }
            i = lit;
        }
    }
    assert(out@ =~= packed_row(row@, 0));
    out
}

/// Unpacking reads a packed row back.
pub proof fn lemma_unpack_from(d: Seq<u8>, at: int, row: Seq<u8>, i: int)
    requires
        0 <= i <= row.len(),
        lies_at(d, at, packed_row(row, i)),
    ensures
        unpacked(d, at, row.len() as int, row.take(i)) == Ok::<(Seq<u8>, int), IffError>(
            (row, at + packed_row(row, i).len()),
        ),
    decreases row.len() - i,
{
    if i < row.len() {
        let same = run_end(row, i, i + 1);
        let lit = literal_end(row, i, i + 1);
        lemma_literal_end(row, i, i + 1);
        lemma_run_end(row, i, i + 1);
        if same - i >= 3 {
            let head = seq![(257 - (same - i)) as u8, row[i]];
            lemma_lies_split(d, at, head, packed_row(row, same));
            lemma_lies_byte(d, at, head, 0);
            lemma_lies_byte(d, at, head, 1);
            lemma_unpack_from(d, at + 2, row, same);
            assert(row.take(i) + Seq::new((257 - d[at]) as nat, |k: int| d[at + 1]) =~= row.take(
                same,
            ));
        } else {
            let first = seq![(lit - i - 1) as u8];
            let bytes = row.subrange(i, lit);
            lemma_lies_split(d, at, first + bytes, packed_row(row, lit));
            lemma_lies_split(d, at, first, bytes);
            lemma_lies_byte(d, at, first, 0);
            lemma_unpack_from(d, at + 1 + bytes.len(), row, lit);
            assert(at + d[at] + 2 == at + 1 + bytes.len());
            assert(row.take(i) + d.subrange(at + 1, at + d[at] + 2) =~= row.take(lit));
        }
    } else {
        assert(row.take(i) =~= row);
    }
}

/// Unpacking a packed row gives the row, whatever follows it.
pub proof fn law_byterun1_round_trip(row: Seq<u8>, rest: Seq<u8>)
    ensures
        unpacked(packed_row(row, 0) + rest, 0, row.len() as int, Seq::empty()) == Ok::<
            (Seq<u8>, int),
            IffError,
        >((row, packed_row(row, 0).len() as int)),
{
    let d = packed_row(row, 0) + rest;
    assert(d.subrange(0, packed_row(row, 0).len() as int) =~= packed_row(row, 0));
    assert(row.take(0) =~= Seq::empty());
    lemma_unpack_from(d, 0, row, 0);
}

/// Byte `x` of the row that starts at byte `at`: a byte below 128 is followed by one byte more
/// than it says, to be taken as they are; one above 128 by a byte that stands for as many as it
/// lacks to 257; and 128 stands for nothing.
pub open spec fn unpacked_byte(d: Seq<u8>, at: int, x: int) -> u8
    decreases d.len() - at,
{
    if !(0 <= at < d.len()) {
        0
    } else if d[at] == 128 {
        unpacked_byte(d, at + 1, x)
    } else if d[at] < 128 {
        if x <= d[at] || at + 2 + d[at] > d.len() {
            d[at + 1 + x]
        } else {
            unpacked_byte(d, at + 2 + d[at], x - (d[at] + 1))
        }
    } else {
        if x < 257 - d[at] || at + 2 > d.len() {
            d[at + 1]
        } else {
            unpacked_byte(d, at + 2, x - (257 - d[at]))
        }
    }
}

proof fn lemma_unpacked_byte(d: Seq<u8>, at: int, n: int, acc: Seq<u8>, x: int)
    requires
        0 <= at,
        0 <= x < n,
        unpacked(d, at, n, acc) is Ok,
    ensures
        x < acc.len() ==> (unpacked(d, at, n, acc)->Ok_0).0[x] == acc[x],
        x >= acc.len() ==> (unpacked(d, at, n, acc)->Ok_0).0[x] == unpacked_byte(
            d,
            at,
            x - acc.len(),
        ),
    decreases d.len() - at,
{
    if acc.len() < n {
        if d[at] == 0x80 {
            lemma_unpacked_byte(d, at + 1, n, acc, x);
        } else if d[at] < 0x80 {
            let next = acc + d.subrange(at + 1, at + d[at] + 2);
            lemma_unpacked_byte(d, at + d[at] + 2, n, next, x);
        } else {
            let next = acc + Seq::new((257 - d[at]) as nat, |i: int| d[at + 1]);
            lemma_unpacked_byte(d, at + 2, n, next, x);
        }
    }
}

/// Every byte of a row that can be unpacked is the one that the control bytes say.
pub proof fn law_unpacked_bytes(d: Seq<u8>, at: int, n: int, x: int)
    requires
        0 <= at,
        0 <= x < n,
    ensures
        unpacked(d, at, n, Seq::empty()) matches Ok((row, _)) ==> row.len() == n && row[x]
            == unpacked_byte(d, at, x),
{
    if unpacked(d, at, n, Seq::empty()) is Ok {
        lemma_unpacked(d, at, n, Seq::empty());
        lemma_unpacked_byte(d, at, n, Seq::empty(), x);
    }
}

} // verus!
