//! Text as sequences of characters, addressed by byte offsets into its
//! UTF-8 encoding.

use vstd::prelude::*;
use vstd::string::*;
use vstd::utf8::*;

verus! {

/// The UTF-8 encoding of a text.
pub open spec fn bytes_of(text: Seq<char>) -> Seq<u8> {
    encode_utf8(text)
}

/// True when `offset` lies between two characters of `text`, or at one of
/// its ends.
pub open spec fn is_boundary(text: Seq<char>, offset: int) -> bool {
    0 <= offset <= bytes_of(text).len() && is_char_boundary(bytes_of(text), offset)
}

/// True when `[start, end)` is a span of whole characters of `text`.
pub open spec fn is_span(text: Seq<char>, start: int, end: int) -> bool {
    start <= end && is_boundary(text, start) && is_boundary(text, end)
}

/// The characters of `text` whose encoding occupies the bytes `[start, end)`.
pub open spec fn span_text(text: Seq<char>, start: int, end: int) -> Seq<char> {
    decode_utf8(bytes_of(text).subrange(start, end))
}

/// The number of bytes that `s` occupies.
pub fn byte_len(s: &str) -> (n: usize)
    ensures
        n == bytes_of(s@).len(),
{
    s.as_bytes().len()
}

/// Tells whether a byte offset lies between two characters of `s`.
pub fn on_boundary(s: &str, offset: usize) -> (yes: bool)
    ensures
        yes == is_boundary(s@, offset as int),
{
    offset <= byte_len(s) && s.is_char_boundary(offset)
}

/// The part of `s` between two byte offsets, borrowed from `s`.
pub fn slice<'a>(s: &'a str, start: usize, end: usize) -> (part: &'a str)
    requires
        is_span(s@, start as int, end as int),
    ensures
        part@ == span_text(s@, start as int, end as int),
        part.spec_bytes() == s.spec_bytes().subrange(start as int, end as int),
{
    broadcast use group_utf8_lib;
    let (head, _) = s.split_at(end);
    proof {
        let whole = s.spec_bytes();
        assert(head.spec_bytes() == whole.subrange(0, end as int));
        assert(valid_utf8(whole));
        assert(valid_utf8(head.spec_bytes()));
        if start < end {
            assert(head.spec_bytes()[start as int] == whole[start as int]);
            is_char_boundary_iff_not_is_continuation_byte(whole, start as int);
            is_char_boundary_iff_not_is_continuation_byte(head.spec_bytes(), start as int);
        } else {
            is_char_boundary_start_end_of_seq(head.spec_bytes());
        }
    }
    let (_, part) = head.split_at(start);
    proof {
        assert(part.spec_bytes() =~= s.spec_bytes().subrange(start as int, end as int));
        assert(decode_utf8(encode_utf8(part@)) == part@);
    }
    part
}

/// The bytes of a span of whole characters are themselves well-formed UTF-8.
pub proof fn lemma_span_valid(text: Seq<char>, start: int, end: int)
    requires
        is_span(text, start, end),
    ensures
        valid_utf8(bytes_of(text).subrange(start, end)),
        bytes_of(span_text(text, start, end)) == bytes_of(text).subrange(start, end),
{
    broadcast use group_utf8_lib;
    let whole = bytes_of(text);
    let head = whole.subrange(0, end);
    assert(valid_utf8(head));
    if start < end {
        assert(head[start] == whole[start]);
        is_char_boundary_iff_not_is_continuation_byte(whole, start);
        is_char_boundary_iff_not_is_continuation_byte(head, start);
    } else {
        is_char_boundary_start_end_of_seq(head);
    }
    assert(head.subrange(start, head.len() as int) =~= whole.subrange(start, end));
    decode_utf8_encode_utf8(whole.subrange(start, end));
}

/// A boundary of the text that lies inside a span is a boundary of the span.
pub proof fn lemma_boundary_in_span(text: Seq<char>, start: int, mid: int, end: int)
    requires
        is_span(text, start, mid),
        is_span(text, mid, end),
    ensures
        is_char_boundary(bytes_of(text).subrange(start, end), mid - start),
{
    broadcast use group_utf8_lib;
    let whole = bytes_of(text);
    let part = whole.subrange(start, end);
    lemma_span_valid(text, start, end);
    if mid < end {
        assert(part[mid - start] == whole[mid]);
        is_char_boundary_iff_not_is_continuation_byte(whole, mid);
        is_char_boundary_iff_not_is_continuation_byte(part, mid - start);
    } else {
        is_char_boundary_start_end_of_seq(part);
    }
}

/// Two adjacent spans read together as the span that covers both.
pub proof fn lemma_span_join(text: Seq<char>, start: int, mid: int, end: int)
    requires
        is_span(text, start, mid),
        is_span(text, mid, end),
    ensures
        is_span(text, start, end),
        span_text(text, start, mid) + span_text(text, mid, end) == span_text(text, start, end),
{
    let whole = bytes_of(text);
    let part = whole.subrange(start, end);
    lemma_span_valid(text, start, end);
    lemma_boundary_in_span(text, start, mid, end);
    decode_utf8_split(part, mid - start);
    assert(part.subrange(0, mid - start) =~= whole.subrange(start, mid));
    assert(part.subrange(mid - start, part.len() as int) =~= whole.subrange(mid, end));
}

/// The span from the first byte to the last is the whole text.
pub proof fn lemma_span_whole(text: Seq<char>)
    ensures
        is_span(text, 0, bytes_of(text).len() as int),
        span_text(text, 0, bytes_of(text).len() as int) == text,
{
    broadcast use group_utf8_lib;
    let whole = bytes_of(text);
    is_char_boundary_start_end_of_seq(whole);
    assert(whole.subrange(0, whole.len() as int) =~= whole);
}

/// A span that starts where it ends holds no character.
pub proof fn lemma_span_empty(text: Seq<char>, at: int)
    requires
        is_boundary(text, at),
    ensures
        span_text(text, at, at) == Seq::<char>::empty(),
{
    assert(bytes_of(text).subrange(at, at) =~= Seq::<u8>::empty());
    reveal_with_fuel(decode_utf8, 1);
}

} // verus!
