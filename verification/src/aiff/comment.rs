//! The comments chunk: dated texts, some of them about a marker.

use vstd::prelude::*;
use crate::aiff::chunk::{counted, past_pad, to_counted};
use crate::aiff::error::AiffError;
use crate::aiff::marker::{marker_by_id, Marker, MarkerChunk};
use crate::bytes::{
    be16, be16_bytes, be32, be32_bytes, law_signed_round_trip, lemma_lies_be16, lemma_lies_be32,
    lemma_lies_split, lies_at, push_all, push_be16, push_be32, read_be16, read_be32, signed16,
    to_signed16, to_unsigned16, unsigned16,
};
use crate::chunk::pad_of;
use crate::text::{decode_lossy, lossy_text};
use vstd::slice::slice_subrange;
use vstd::string::*;
use vstd::utf8::{encode_utf8, encode_utf8_decode_utf8, encode_utf8_valid_utf8};

verus! {

/// A dated text.
#[derive(Clone, Debug, PartialEq, Eq)]
pub struct Comment {
    /// Seconds since the start of 1904.
    pub timestamp: u32,
    /// Id of the marker that the text is about, or zero.
    pub marker: i16,
    /// The text.
    pub text: String,
}

/// What a comment says.
#[verifier::ext_equal]
pub struct CommentData {
    /// Seconds since the start of 1904.
    pub timestamp: u32,
    /// Id of the marker that the text is about, or zero.
    pub marker: i16,
    /// The text.
    pub text: Seq<char>,
}

impl View for Comment {
    type V = CommentData;

    open spec fn view(&self) -> CommentData {
        CommentData { timestamp: self.timestamp, marker: self.marker, text: self.text@ }
    }
}

impl Comment {
    /// Id of the marker that the text is about.
    pub fn linked_marker(&self) -> (r: Option<i16>)
        ensures
            r == if self.marker > 0 {
                Some(self.marker)
            } else {
                None
            },
    {
        if self.marker > 0 {
            Some(self.marker)
        } else {
            None
        }
    }

    /// The marker that the text is about.
    pub fn resolve_marker<'m>(&self, markers: &'m MarkerChunk) -> (r: Option<&'m Marker>)
        ensures
            match r {
                Some(m) => self.marker > 0 && marker_by_id(markers@, self.marker) == Some(m@),
                None => self.marker <= 0 || marker_by_id(markers@, self.marker) is None,
            },
    {
        match self.linked_marker() {
            Some(id) => markers.by_id(id),
            None => None,
        }
    }
}

/// A comments chunk.
#[derive(Clone, Debug, PartialEq, Eq)]
pub struct CommentsChunk {
    /// The comments, in the order of the file.
    pub comments: Vec<Comment>,
}

impl View for CommentsChunk {
    type V = Seq<CommentData>;

    open spec fn view(&self) -> Seq<CommentData> {
        self.comments@.map_values(|c: Comment| c@)
    }
}

impl Default for CommentsChunk {
    fn default() -> (r: Self)
        ensures
            r@ == Seq::<CommentData>::empty(),
    {
        let r: CommentsChunk = CommentsChunk { comments: Vec::new() };
        assert(r@ =~= Seq::empty());
        r
    }
}

/// `seen` and the `n` comments that start at `at`.
pub open spec fn comments_read(d: Seq<u8>, at: int, n: int, seen: Seq<CommentData>) -> Result<
    Seq<CommentData>,
    AiffError,
>
    decreases n,
{
    let count = be16(d, at + 6) as int;
    let end = at + 8 + count;
    if n <= 0 {
        Ok(seen)
    } else if at + 8 > d.len() {
        Err(AiffError::Truncated("COMT comment header"))
    } else if end > d.len() {
        Err(AiffError::Truncated("COMT comment text"))
    } else {
        comments_read(
            d,
            past_pad(count, end, d.len() as int),
            n - 1,
            seen.push(
                CommentData {
                    timestamp: be32(d, at),
                    marker: signed16(be16(d, at + 4)),
                    text: lossy_text(d.subrange(at + 8, end)),
                },
            ),
        )
    }
}

/// The comments of a comments chunk.
pub open spec fn comments_chunk(d: Seq<u8>) -> Result<Seq<CommentData>, AiffError> {
    if d.len() < 2 {
        Err(AiffError::Truncated("COMT numComments"))
    } else {
        comments_read(d, 2, be16(d, 0) as int, Seq::empty())
    }
}

/// Reads the body of a comments chunk.
pub fn parse_comments_chunk(data: &[u8]) -> (r: Result<CommentsChunk, AiffError>)
    ensures
        match r {
            Ok(c) => comments_chunk(data@) == Ok::<Seq<CommentData>, AiffError>(c@),
            Err(e) => comments_chunk(data@) == Err::<Seq<CommentData>, AiffError>(e),
        },
{
    let n: usize = data.len();
    if n < 2 {
        return Err(AiffError::Truncated("COMT numComments"));
    }
    let mut out: CommentsChunk = CommentsChunk { comments: Vec::new() };
    assert(out@ =~= Seq::empty());
    let mut left: u16 = read_be16(data, 0);
    let mut at: usize = 2;
    while left > 0
        invariant
            n == data@.len(),
            at <= n,
            comments_read(data@, at as int, left as int, out@) == comments_chunk(data@),
        decreases left,
    {
        if n - at < 8 {
            return Err(AiffError::Truncated("COMT comment header"));
        }
        let timestamp: u32 = read_be32(data, at);
        let marker: i16 = to_signed16(read_be16(data, at + 4));
        let count: usize = read_be16(data, at + 6) as usize;
        let start: usize = at + 8;
        if n - start < count {
            return Err(AiffError::Truncated("COMT comment text"));
        }
        let end: usize = start + count;
        let text: String = decode_lossy(slice_subrange(data, start, end));
        let ghost before = out@;
        let c: Comment = Comment { timestamp, marker, text };
        out.comments.push(c);
        assert(out@ =~= before.push(c@));
        at = if count % 2 == 1 && end < n {
            end + 1
        } else {
            end
        };
        left = left - 1;
    }
    Ok(out)
}

/// The text that a comment is written with: at most 65535 bytes of UTF-8.
pub open spec fn stored_text(text: Seq<char>) -> Seq<u8> {
    let all = encode_utf8(text);
    all.take(counted(all.len() as int))
}

/// The bytes of a comment.
pub open spec fn comment_bytes(c: CommentData) -> Seq<u8> {
    let text = stored_text(c.text);
    be32_bytes(c.timestamp) + be16_bytes(unsigned16(c.marker)) + be16_bytes(text.len() as u16)
        + text + pad_of(text.len() as int)
}

/// The bytes of the comments `i..n`.
pub open spec fn comments_bytes(cs: Seq<CommentData>, i: int, n: int) -> Seq<u8>
    decreases n - i,
{
    if i >= n {
        Seq::empty()
    } else {
        comment_bytes(cs[i]) + comments_bytes(cs, i + 1, n)
    }
}

/// The body of a comments chunk. Only the first 65535 comments are written.
pub open spec fn comments_chunk_bytes(cs: Seq<CommentData>) -> Seq<u8> {
    let n = counted(cs.len() as int);
    be16_bytes(n as u16) + comments_bytes(cs, 0, n)
}

fn write_one_comment(out: &mut Vec<u8>, c: &Comment)
    ensures
        final(out)@ == old(out)@ + comment_bytes(c@),
{
    let ghost out0 = out@;
    push_be32(out, c.timestamp);
    push_be16(out, to_unsigned16(c.marker));
    let text: &[u8] = c.text.as_str().as_bytes();
    let count: usize = to_counted(text.len());
    let kept: &[u8] = slice_subrange(text, 0, count);
    assert(kept@ =~= stored_text(c.text@));
    push_be16(out, count as u16);
    push_all(out, kept);
    if count % 2 == 1 {
        out.push(0);
    }
    assert(out@ =~= out0 + comment_bytes(c@));
}

/// Writes the body of a comments chunk.
pub fn write_comments_chunk(c: &CommentsChunk) -> (out: Vec<u8>)
    ensures
        out@ == comments_chunk_bytes(c@),
{
    let count: usize = to_counted(c.comments.len());
    let mut out: Vec<u8> = Vec::new();
    push_be16(&mut out, count as u16);
    assert(out@ + comments_bytes(c@, 0, count as int) =~= comments_chunk_bytes(c@));
    let mut i: usize = 0;
    while i < count
        invariant
            i <= count <= c.comments.len(),
            out@ + comments_bytes(c@, i as int, count as int) == comments_chunk_bytes(c@),
        decreases count - i,
    {
        let ghost before = out@;
        write_one_comment(&mut out, &c.comments[i]);
        proof {
            let rest = comments_bytes(c@, i + 1, count as int);
            assert(out@ + rest =~= before + (comment_bytes(c@[i as int]) + rest));
        }
        i += 1;
    }
    assert(out@ =~= comments_chunk_bytes(c@));
    out
}

/// A comment as it comes back from a file.
pub open spec fn stored_comment(c: CommentData) -> CommentData {
    CommentData { text: lossy_text(stored_text(c.text)), ..c }
}

/// Comments as they come back from a file.
pub open spec fn stored_comments(cs: Seq<CommentData>) -> Seq<CommentData> {
    cs.take(counted(cs.len() as int)).map_values(|c: CommentData| stored_comment(c))
}

proof fn lemma_comment_back(d: Seq<u8>, at: int, c: CommentData)
    requires
        lies_at(d, at, comment_bytes(c)),
    ensures
        at + 8 + stored_text(c.text).len() <= d.len(),
        be32(d, at) == c.timestamp,
        signed16(be16(d, at + 4)) == c.marker,
        be16(d, at + 6) == stored_text(c.text).len(),
        d.subrange(at + 8, at + 8 + stored_text(c.text).len()) == stored_text(c.text),
        past_pad(
            stored_text(c.text).len() as int,
            at + 8 + stored_text(c.text).len(),
            d.len() as int,
        ) == at + comment_bytes(c).len(),
{
    let text = stored_text(c.text);
    let t = be32_bytes(c.timestamp);
    let m = be16_bytes(unsigned16(c.marker));
    let l = be16_bytes(text.len() as u16);
    let p = pad_of(text.len() as int);
    assert(comment_bytes(c) =~= t + (m + (l + (text + p))));
    lemma_lies_split(d, at, t, m + (l + (text + p)));
    lemma_lies_split(d, at + 4, m, l + (text + p));
    lemma_lies_split(d, at + 6, l, text + p);
    lemma_lies_split(d, at + 8, text, p);
    lemma_lies_be32(d, at, c.timestamp);
    lemma_lies_be16(d, at + 4, unsigned16(c.marker));
    lemma_lies_be16(d, at + 6, text.len() as u16);
    law_signed_round_trip(c.marker, 0);
}

proof fn lemma_comments_back(cs: Seq<CommentData>, n: int, d: Seq<u8>, at: int, i: int)
    requires
        0 <= i <= n <= cs.len(),
        lies_at(d, at, comments_bytes(cs, i, n)),
    ensures
        comments_read(
            d,
            at,
            n - i,
            cs.take(i).map_values(|c: CommentData| stored_comment(c)),
        ) == Ok::<Seq<CommentData>, AiffError>(
            cs.take(n).map_values(|c: CommentData| stored_comment(c)),
        ),
    decreases n - i,
{
    let f = |c: CommentData| stored_comment(c);
    if i < n {
        let c = cs[i];
        lemma_lies_split(d, at, comment_bytes(c), comments_bytes(cs, i + 1, n));
        lemma_comment_back(d, at, c);
        assert(cs.take(i).map_values(f).push(stored_comment(c)) =~= cs.take(i + 1).map_values(f));
        lemma_comments_back(cs, n, d, at + comment_bytes(c).len(), i + 1);
    }
}

/// The comments are read back without the pad byte of the last one, too.
proof fn lemma_comments_unpadded(cs: Seq<CommentData>, n: int, d: Seq<u8>, at: int, i: int)
    requires
        0 <= i < n <= cs.len(),
        0 <= at,
        lies_at(d, at, comments_bytes(cs, i, n)),
        at + comments_bytes(cs, i, n).len() == d.len(),
        stored_text(cs[n - 1].text).len() % 2 == 1,
    ensures
        comments_read(
            d.drop_last(),
            at,
            n - i,
            cs.take(i).map_values(|c: CommentData| stored_comment(c)),
        ) == Ok::<Seq<CommentData>, AiffError>(
            cs.take(n).map_values(|c: CommentData| stored_comment(c)),
        ),
    decreases n - i,
{
    let f = |c: CommentData| stored_comment(c);
    let e = d.drop_last();
    let c = cs[i];
    let text = stored_text(c.text);
    let seen = cs.take(i).map_values(f);
    lemma_lies_split(d, at, comment_bytes(c), comments_bytes(cs, i + 1, n));
    lemma_comment_back(d, at, c);
    assert(comment_bytes(c).len() == 8 + text.len() + text.len() as int % 2);
    assert(seen.push(stored_comment(c)) =~= cs.take(i + 1).map_values(f));
    if i + 1 < n {
        assert(comments_bytes(cs, i + 1, n).len() >= comment_bytes(cs[i + 1]).len() >= 8);
        lemma_comments_unpadded(cs, n, d, at + comment_bytes(c).len(), i + 1);
    }
    assert(at + 8 + text.len() <= e.len());
    assert(be32(e, at) == be32(d, at));
    assert(be16(e, at + 4) == be16(d, at + 4));
    assert(be16(e, at + 6) == be16(d, at + 6));
    assert(e.subrange(at + 8, at + 8 + text.len()) =~= text);
    let next = past_pad(text.len() as int, at + 8 + text.len(), e.len() as int);
    assert(i + 1 < n ==> next == at + comment_bytes(c).len());
    assert(comments_read(e, next, n - i - 1, seen.push(stored_comment(c))) == Ok::<
        Seq<CommentData>,
        AiffError,
    >(cs.take(n).map_values(f)));
}

/// Comments that are written are read back: the first 65535 of them, each with as much of its
/// text as 65535 bytes hold, and thus all of them, unchanged, where that is enough. So they
/// are where the pad byte behind the last of them is missing.
pub proof fn law_comments_round_trip(cs: Seq<CommentData>)
    ensures
        comments_chunk(comments_chunk_bytes(cs)) == Ok::<Seq<CommentData>, AiffError>(
            stored_comments(cs),
        ),
        cs.len() > 0 && stored_text(cs[counted(cs.len() as int) - 1].text).len() % 2 == 1
            ==> comments_chunk(comments_chunk_bytes(cs).drop_last()) == Ok::<
            Seq<CommentData>,
            AiffError,
        >(stored_comments(cs)),
        cs.len() <= 0xFFFF && (forall|i: int|
            0 <= i < cs.len() ==> encode_utf8((#[trigger] cs[i]).text).len() <= 0xFFFF)
            ==> stored_comments(cs) == cs,
{
    let n = counted(cs.len() as int);
    let d = comments_chunk_bytes(cs);
    assert(lies_at(d, 0, be16_bytes(n as u16) + comments_bytes(cs, 0, n))) by {
        assert(d.subrange(0, d.len() as int) =~= d);
    }
    lemma_lies_split(d, 0, be16_bytes(n as u16), comments_bytes(cs, 0, n));
    lemma_lies_be16(d, 0, n as u16);
    assert(cs.take(0).map_values(|c: CommentData| stored_comment(c)) =~= Seq::empty());
    lemma_comments_back(cs, n, d, 2, 0);
    if cs.len() > 0 && stored_text(cs[n - 1].text).len() % 2 == 1 {
        lemma_comments_unpadded(cs, n, d, 2, 0);
        assert(be16(d.drop_last(), 0) == be16(d, 0));
    }
    if cs.len() <= 0xFFFF && (forall|i: int|
        0 <= i < cs.len() ==> encode_utf8((#[trigger] cs[i]).text).len() <= 0xFFFF) {
        assert forall|i: int| 0 <= i < cs.len() implies stored_comment(#[trigger] cs[i])
            == cs[i] by {
            encode_utf8_valid_utf8(cs[i].text);
            encode_utf8_decode_utf8(cs[i].text);
            assert(stored_text(cs[i].text) =~= encode_utf8(cs[i].text));
        }
        assert(stored_comments(cs) =~= cs);
    }
}

} // verus!
