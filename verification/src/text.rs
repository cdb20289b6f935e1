//! Numbers and chunk ids as text.

use vstd::prelude::*;
use vstd::string::*;
use vstd::utf8::{decode_utf8, valid_utf8};

verus! {

/// A decimal digit.
pub open spec fn digit(d: int) -> Seq<char> {
    if d == 0 {
        "0"@
    } else if d == 1 {
        "1"@
    } else if d == 2 {
        "2"@
    } else if d == 3 {
        "3"@
    } else if d == 4 {
        "4"@
    } else if d == 5 {
        "5"@
    } else if d == 6 {
        "6"@
    } else if d == 7 {
        "7"@
    } else if d == 8 {
        "8"@
    } else if d == 9 {
        "9"@
    } else if d == 10 {
        "A"@
    } else if d == 11 {
        "B"@
    } else if d == 12 {
        "C"@
    } else if d == 13 {
        "D"@
    } else if d == 14 {
        "E"@
    } else {
        "F"@
    }
}

/// A number in decimal, without leading zeros.
pub open spec fn decimal(n: int) -> Seq<char>
    decreases n,
{
    if n < 10 {
        digit(n)
    } else {
        decimal(n / 10) + digit(n % 10)
    }
}

/// The last `k` hexadecimal digits of a number, in capitals.
pub open spec fn hexadecimal(n: int, k: int) -> Seq<char>
    decreases k,
{
    if k <= 0 {
        Seq::empty()
    } else {
        hexadecimal(n / 16, k - 1) + digit(n % 16)
    }
}

/// A signed number in decimal.
pub open spec fn signed_decimal(n: int) -> Seq<char> {
    if n < 0 {
        "-"@ + decimal(-n)
    } else {
        decimal(n)
    }
}

fn append_digit(out: &mut String, d: u8)
    requires
        d < 16,
    ensures
        final(out)@ == old(out)@ + digit(d as int),
{
    if d == 0 {
        out.append("0");
    } else if d == 1 {
        out.append("1");
    } else if d == 2 {
        out.append("2");
    } else if d == 3 {
        out.append("3");
    } else if d == 4 {
        out.append("4");
    } else if d == 5 {
        out.append("5");
    } else if d == 6 {
        out.append("6");
    } else if d == 7 {
        out.append("7");
    } else if d == 8 {
        out.append("8");
    } else if d == 9 {
        out.append("9");
    } else if d == 10 {
        out.append("A");
    } else if d == 11 {
        out.append("B");
    } else if d == 12 {
        out.append("C");
    } else if d == 13 {
        out.append("D");
    } else if d == 14 {
        out.append("E");
    } else {
        out.append("F");
    }
}

/// Appends a number in decimal.
pub fn append_decimal(out: &mut String, n: u64)
    ensures
        final(out)@ == old(out)@ + decimal(n as int),
    decreases n,
{
    let ghost out0 = out@;
    if n >= 10 {
        append_decimal(out, n / 10);
    }
    append_digit(out, (n % 10) as u8);
    assert(out@ =~= out0 + decimal(n as int));
}

/// Appends a signed number in decimal.
pub fn append_signed(out: &mut String, n: i64)
    ensures
        final(out)@ == old(out)@ + signed_decimal(n as int),
{
    let ghost out0 = out@;
    if n < 0 {
        out.append("-");
        append_decimal(out, (-(n as i128)) as u64);
    } else {
        append_decimal(out, n as u64);
    }
    assert(out@ =~= out0 + signed_decimal(n as int));
}

/// Appends the last `k` hexadecimal digits of a number.
pub fn append_hexadecimal(out: &mut String, n: u32, k: u8)
    ensures
        final(out)@ == old(out)@ + hexadecimal(n as int, k as int),
    decreases k,
{
    let ghost out0 = out@;
    if k > 0 {
        append_hexadecimal(out, n / 16, k - 1);
        append_digit(out, (n % 16) as u8);
    }
    assert(out@ =~= out0 + hexadecimal(n as int, k as int));
}

/// The text that bytes spell in UTF-8; four question marks where they spell none.
pub open spec fn id_text(d: Seq<u8>) -> Seq<char> {
    if valid_utf8(d) {
        decode_utf8(d)
    } else {
        "????"@
    }
}

/// `core::str::from_utf8`: the text that bytes spell in UTF-8, or nothing where they are
/// not well-formed.
#[verifier::external_body]
pub(crate) fn text_of(d: &[u8]) -> (r: Option<&str>)
    ensures
        match r {
            Some(s) => valid_utf8(d@) && s@ == decode_utf8(d@),
            None => !valid_utf8(d@),
        },
{
    core::str::from_utf8(d).ok()
}

/// The text that bytes spell; four question marks where they spell none.
pub fn id_str(d: &[u8]) -> (s: &str)
    ensures
        s@ == id_text(d@),
{
    match text_of(d) {
        Some(s) => s,
        None => "????",
    }
}

/// The text that `String::from_utf8_lossy` makes of bytes, ill-formed UTF-8 in particular.
pub uninterp spec fn repaired(d: Seq<u8>) -> Seq<char>;

/// The text that bytes spell in UTF-8, ill-formed sequences replaced.
pub open spec fn lossy_text(d: Seq<u8>) -> Seq<char> {
    if valid_utf8(d) {
        decode_utf8(d)
    } else {
        repaired(d)
    }
}

/// `String::from_utf8_lossy`: the text that bytes spell in UTF-8. Bytes that are well-formed
/// are taken as they are. Others give a text that depends on them alone, with at least one
/// replacement character; which of their bytes such a character stands for is not said.
#[verifier::external_body]
pub(crate) fn decode_lossy(d: &[u8]) -> (s: String)
    ensures
        valid_utf8(d@) ==> s@ == decode_utf8(d@),
        !valid_utf8(d@) ==> s@ == repaired(d@) && s@.contains('\u{FFFD}'),
{
    String::from_utf8_lossy(d).into_owned()
}

/// What `{:?}` makes of a text: quotation marks around it, and escapes for what cannot be
/// printed.
pub uninterp spec fn quoted(s: Seq<char>) -> Seq<char>;

/// `core::fmt::Debug` of `str`: the text in quotation marks, with escapes.
#[verifier::external_body]
fn quote(s: &str) -> (r: String)
    ensures
        r@ == quoted(s@),
{
    format!("{:?}", s)
}

/// Appends the text that bytes spell, in quotation marks.
pub fn append_quoted_id(out: &mut String, d: &[u8])
    ensures
        final(out)@ == old(out)@ + quoted(id_text(d@)),
{
    let q: String = quote(id_str(d));
    out.append(q.as_str());
}

} // verus!
