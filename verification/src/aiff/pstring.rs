//! Names with their length in the byte before them.

use vstd::prelude::*;
use crate::bytes::push_all;
use crate::chunk::pad_of;
use vstd::slice::slice_subrange;
use vstd::utf8::encode_utf8;

verus! {

/// The bytes that a name is written with: at most 255 of its UTF-8.
pub open spec fn stored_name(name: Seq<char>) -> Seq<u8> {
    let all = encode_utf8(name);
    if all.len() > 255 {
        all.take(255)
    } else {
        all
    }
}

/// A name with its length, at most 255, in the byte before it, and a pad byte that makes the
/// number of bytes even.
pub open spec fn pstring_bytes(name: Seq<char>) -> Seq<u8> {
    let text = stored_name(name);
    seq![text.len() as u8] + text + pad_of(1int + text.len())
}

/// Appends a name with its length.
pub fn push_pstring(out: &mut Vec<u8>, name: &str)
    ensures
        final(out)@ == old(out)@ + pstring_bytes(name@),
{
    let ghost out0 = out@;
    let all: &[u8] = name.as_bytes();
    let len: usize = if all.len() > 255 {
        255
    } else {
        all.len()
    };
    let kept: &[u8] = slice_subrange(all, 0, len);
    assert(kept@ =~= stored_name(name@));
    out.push(len as u8);
    push_all(out, kept);
    if len % 2 == 0 {
        out.push(0);
    }
    assert(out@ =~= out0 + pstring_bytes(name@));
}

} // verus!
