//! Source positions and spans over UTF-8 text.
use vstd::prelude::*;
use vstd::string::*;
use vstd::utf8::*;
use crate::scan::occurs;
use crate::text::{after_last, chars_of, lemma_split_some, split_on};

verus! {

/// One end of a span: 1-based line, 1-based column in characters, 0-based
/// byte offset.
#[derive(Debug, Clone, Copy, PartialEq, Eq, Structural)]
pub struct SourcePos {
    pub line: u32,
    pub col: u32,
    pub byte: u32,
}

/// A half-open range of a text.
#[derive(Debug, Clone, Copy, PartialEq, Eq, Structural)]
pub struct SourceSpan {
    pub start: SourcePos,
    pub end: SourcePos,
}

impl SourceSpan {
    /// `other` lies within this span, by byte offsets.
    pub open spec fn covers(self, other: SourceSpan) -> bool {
        self.start.byte <= other.start.byte && other.end.byte <= self.end.byte
    }

    /// Whether `other` lies within this span, by byte offsets.
    pub fn contains_range(&self, other: &SourceSpan) -> (r: bool)
        ensures
            r == self.covers(*other),
    {
        self.start.byte <= other.start.byte && other.end.byte <= self.end.byte
    }

    /// The number of bytes of the span, zero where it ends before it starts.
    pub open spec fn width(self) -> nat {
        if self.end.byte >= self.start.byte {
            (self.end.byte - self.start.byte) as nat
        } else {
            0
        }
    }

    /// The byte offsets of the span.
    pub fn byte_range(&self) -> (r: std::ops::Range<usize>)
        ensures
            r.start == self.start.byte,
            r.end == self.end.byte,
    {
        self.start.byte as usize..self.end.byte as usize
    }
}

// ---------------------------------------------------------------------
// Character boundaries
// ---------------------------------------------------------------------

/// The bytes of a text are valid UTF-8 and decode to its characters.
pub proof fn lemma_text_bytes(s: &str)
    ensures
        valid_utf8(s.spec_bytes()),
        decode_utf8(s.spec_bytes()) == s@,
{
    encode_utf8_valid_utf8(s@);
    encode_utf8_decode_utf8(s@);
}

/// A character boundary of a text is one of any prefix that reaches it.
pub proof fn lemma_boundary_in_prefix(b: Seq<u8>, at: int, end: int)
    requires
        valid_utf8(b),
        is_char_boundary(b, at),
        is_char_boundary(b, end),
        0 <= at <= end <= b.len(),
    ensures
        valid_utf8(b.subrange(0, end)),
        is_char_boundary(b.subrange(0, end), at),
{
    valid_utf8_split(b, end);
    let p = b.subrange(0, end);
    if at < end {
        is_char_boundary_iff_not_is_continuation_byte(b, at);
        is_char_boundary_iff_not_is_continuation_byte(p, at);
        assert(p[at] == b[at]);
    } else {
        is_char_boundary_start_end_of_seq(p);
    }
}

/// An ASCII byte is a whole character: both of its ends are boundaries.
pub proof fn lemma_ascii_boundaries(b: Seq<u8>, i: int)
    requires
        valid_utf8(b),
        0 <= i < b.len(),
        b[i] < 0x80,
    ensures
        is_char_boundary(b, i),
        is_char_boundary(b, i + 1),
{
    is_char_boundary_iff_not_is_continuation_byte(b, i);
    valid_utf8_split(b, i);
    let tail = b.subrange(i, b.len() as int);
    assert(tail[0] == b[i]);
    let rest = pop_first_scalar(tail);
    assert(valid_utf8(rest));
    if i + 1 == b.len() {
        is_char_boundary_start_end_of_seq(b);
    } else {
        assert(rest[0] == b[i + 1]);
        is_char_boundary_start_end_of_seq(rest);
        is_char_boundary_iff_not_is_continuation_byte(rest, 0);
        is_char_boundary_iff_not_is_continuation_byte(b, i + 1);
    }
}

/// What follows a valid prefix of a valid text is valid.
pub proof fn lemma_valid_rest(a: Seq<u8>, b: Seq<u8>)
    requires
        valid_utf8(a),
        valid_utf8(a + b),
    ensures
        valid_utf8(b),
    decreases a.len(),
{
    if a.len() == 0 {
        assert(a + b == b);
    } else {
        let whole = a + b;
        assert(whole[0] == a[0]);
        let rest = pop_first_scalar(a);
        assert(length_of_first_scalar(whole) == length_of_first_scalar(a));
        assert(rest.len() < a.len());
        assert(pop_first_scalar(whole) == rest + b);
        lemma_valid_rest(rest, b);
    }
}

/// A text that stands inside another one begins and ends there on character
/// boundaries.
pub proof fn lemma_occurrence_boundaries(b: Seq<u8>, needle: Seq<u8>, at: int)
    requires
        valid_utf8(b),
        valid_utf8(needle),
        needle.len() > 0,
        occurs(b, needle, at),
    ensures
        is_char_boundary(b, at),
        is_char_boundary(b, at + needle.len()),
{
    is_char_boundary_start_end_of_seq(needle);
    is_char_boundary_iff_not_is_continuation_byte(needle, 0);
    assert(b.subrange(at, at + needle.len())[0] == b[at]);
    is_char_boundary_iff_not_is_continuation_byte(b, at);
    valid_utf8_split(b, at);
    let tail = b.subrange(at, b.len() as int);
    let rest = b.subrange(at + needle.len(), b.len() as int);
    assert(tail == needle + rest) by {
        assert(b.subrange(at, at + needle.len()) == needle);
        assert forall|k: int| 0 <= k < needle.len() implies b[at + k] == needle[k] by {
            assert(b.subrange(at, at + needle.len())[k] == b[at + k]);
        }
    }
    lemma_valid_rest(needle, rest);
    let end = at + needle.len();
    if end == b.len() {
        is_char_boundary_start_end_of_seq(b);
    } else {
        assert(rest[0] == b[end]);
        is_char_boundary_start_end_of_seq(rest);
        is_char_boundary_iff_not_is_continuation_byte(rest, 0);
        is_char_boundary_iff_not_is_continuation_byte(b, end);
    }
}

// ---------------------------------------------------------------------
// Slices and positions
// ---------------------------------------------------------------------

/// The text between two character boundaries.
pub fn slice<'a>(text: &'a str, start: usize, end: usize) -> (r: &'a str)
    requires
        start <= end <= text.spec_bytes().len(),
        is_char_boundary(text.spec_bytes(), start as int),
        is_char_boundary(text.spec_bytes(), end as int),
    ensures
        r.spec_bytes() == text.spec_bytes().subrange(start as int, end as int),
        r@ == decode_utf8(text.spec_bytes().subrange(start as int, end as int)),
{
    proof {
        lemma_text_bytes(text);
        lemma_boundary_in_prefix(text.spec_bytes(), start as int, end as int);
    }
    let (prefix, _rest) = text.split_at(end);
    let (_head, piece) = prefix.split_at(start);
    proof {
        lemma_text_bytes(piece);
        assert(text.spec_bytes().subrange(0, end as int).subrange(start as int, end as int)
            == text.spec_bytes().subrange(start as int, end as int));
    }
    piece
}

/// The text between two byte offsets; `None` where they are out of order, out
/// of bounds or not on character boundaries.
pub fn get_slice<'a>(text: &'a str, start: usize, end: usize) -> (r: Option<&'a str>)
    ensures
        r is Some <==> sliceable(text.spec_bytes(), start as int, end as int),
        r matches Some(s) ==> s.spec_bytes() == text.spec_bytes().subrange(
            start as int,
            end as int,
        ) && s@ == decode_utf8(text.spec_bytes().subrange(start as int, end as int)),
{
    if start > end || end > text.as_bytes().len() {
        return None;
    }
    if !text.is_char_boundary(start) || !text.is_char_boundary(end) {
        return None;
    }
    Some(slice(text, start, end))
}

/// `start..end` is a range of `b` between character boundaries.
pub open spec fn sliceable(b: Seq<u8>, start: int, end: int) -> bool {
    0 <= start <= end <= b.len() && is_char_boundary(b, start) && is_char_boundary(b, end)
}

/// `n`, or the largest 32-bit number where `n` exceeds it.
pub open spec fn saturated(n: nat) -> u32 {
    if n <= u32::MAX {
        n as u32
    } else {
        u32::MAX
    }
}

/// The position behind `prefix` in a text, at byte offset `offset`.
pub open spec fn pos_behind(prefix: Seq<char>, offset: nat) -> SourcePos {
    SourcePos {
        line: saturated(split_on(prefix, '\n').len()),
        col: saturated(after_last(prefix, '\n').len() + 1),
        byte: saturated(offset),
    }
}

/// The position at byte offset `offset` of a text with the bytes `b`.
pub open spec fn pos_at(b: Seq<u8>, offset: int) -> SourcePos {
    pos_behind(decode_utf8(b.subrange(0, offset)), offset as nat)
}

/// The span `start..end` of a text with the bytes `b`.
pub open spec fn span_at(b: Seq<u8>, start: int, end: int) -> SourceSpan {
    SourceSpan { start: pos_at(b, start), end: pos_at(b, end) }
}

/// The position at the character boundary `offset` of `text`.
pub fn line_col_pos(text: &str, offset: usize) -> (r: SourcePos)
    requires
        offset <= text.spec_bytes().len(),
        is_char_boundary(text.spec_bytes(), offset as int),
    ensures
        r == pos_at(text.spec_bytes(), offset as int),
{
    proof {
        lemma_text_bytes(text);
    }
    let (prefix, _rest) = text.split_at(offset);
    proof {
        lemma_text_bytes(prefix);
    }
    let chars: Vec<char> = chars_of(prefix);
    let mut line: u32 = 1;
    let mut col: u32 = 1;
    let mut i: usize = 0;
    assert(chars@.take(0) == Seq::<char>::empty());
    while i < chars.len()
        invariant
            i <= chars@.len(),
            line == saturated(split_on(chars@.take(i as int), '\n').len()),
            col == saturated(after_last(chars@.take(i as int), '\n').len() + 1),
        decreases chars@.len() - i,
    {
        proof {
            lemma_split_some(chars@.take(i as int), '\n');
            assert(chars@.take(i as int + 1).drop_last() == chars@.take(i as int));
        }
        if chars[i] == '\n' {
            if line < u32::MAX {
                line += 1;
            }
            col = 1;
        } else {
            if col < u32::MAX {
                col += 1;
            }
        }
        i += 1;
    }
    assert(chars@.take(i as int) == prefix@);
    let byte: u32 = if offset <= u32::MAX as usize {
        offset as u32
    } else {
        u32::MAX
    };
    SourcePos { line, col, byte }
}

/// The span over the bytes `start..end` of `text`; `None` where the range is
/// out of order, out of bounds or not on character boundaries.
pub fn byte_span(text: &str, start: usize, end: usize) -> (r: Option<SourceSpan>)
    ensures
        r == if sliceable(text.spec_bytes(), start as int, end as int) {
            Some(span_at(text.spec_bytes(), start as int, end as int))
        } else {
            None
        },
{
    if start > end || end > text.as_bytes().len() {
        return None;
    }
    if !text.is_char_boundary(start) || !text.is_char_boundary(end) {
        return None;
    }
    Some(SourceSpan { start: line_col_pos(text, start), end: line_col_pos(text, end) })
}

// ---------------------------------------------------------------------
// Laws
// ---------------------------------------------------------------------

/// Law: the first line and the first column have the number one; a line feed
/// begins the next line at its first column, and any other character moves one
/// column on. The byte is the offset.
pub proof fn law_position(prefix: Seq<char>, c: char, offset: nat)
    requires
        split_on(prefix, '\n').len() < u32::MAX,
        prefix.len() + 1 < u32::MAX,
        offset <= u32::MAX,
    ensures
        pos_behind(Seq::empty(), 0) == (SourcePos { line: 1, col: 1, byte: 0 }),
        pos_behind(prefix, offset).byte == offset,
        c == '\n' ==> pos_behind(prefix.push(c), offset).line == pos_behind(prefix, offset).line + 1
            && pos_behind(prefix.push(c), offset).col == 1,
        c != '\n' ==> pos_behind(prefix.push(c), offset).line == pos_behind(prefix, offset).line
            && pos_behind(prefix.push(c), offset).col == pos_behind(prefix, offset).col + 1,
{
    assert(prefix.push(c).drop_last() == prefix);
    crate::text::lemma_split_some(prefix, '\n');
    lemma_last_piece_len(prefix);
}

proof fn lemma_last_piece_len(s: Seq<char>)
    ensures
        after_last(s, '\n').len() <= s.len(),
        split_on(s, '\n').len() >= 1,
    decreases s.len(),
{
    if s.len() > 0 {
        lemma_last_piece_len(s.drop_last());
    }
}

/// Law: a number that does not fit into 32 bits is stated as the largest one.
pub proof fn law_saturated(n: nat)
    ensures
        n <= 0xffff_ffff ==> saturated(n) == n,
        n > 0xffff_ffff ==> saturated(n) == 0xffff_ffffu32,
{
}

/// Law: a span begins and ends at the positions of its two offsets, each that
/// behind the text before it.
pub proof fn law_span(b: Seq<u8>, start: int, end: int)
    ensures
        span_at(b, start, end).start == pos_behind(
            decode_utf8(b.subrange(0, start)),
            start as nat,
        ),
        span_at(b, start, end).end == pos_behind(decode_utf8(b.subrange(0, end)), end as nat),
{
}

/// Law: a span covers another that neither begins before it nor ends behind
/// it; its width is the number of its bytes.
pub proof fn law_covers(a: SourceSpan, b: SourceSpan)
    ensures
        a.covers(b) <==> !(b.start.byte < a.start.byte) && !(b.end.byte > a.end.byte),
        a.start.byte <= a.end.byte ==> a.width() == a.end.byte - a.start.byte,
        a.start.byte > a.end.byte ==> a.width() == 0,
{
}

/// Law: a range can be cut out of a text where it lies in the text and does
/// not cut a character in two.
pub proof fn law_sliceable(b: Seq<u8>, start: int, end: int)
    ensures
        sliceable(b, start, end) <==> 0 <= start && start <= end && end <= b.len()
            && is_char_boundary(b, start) && is_char_boundary(b, end),
{
}

} // verus!
