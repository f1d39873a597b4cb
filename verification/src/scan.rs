//! Byte-level scanning of Jinja source: tag closers, string literals,
//! identifier edges and the search for a literal.
use vstd::prelude::*;

verus! {

// ---------------------------------------------------------------------
// Tag closers
// ---------------------------------------------------------------------

/// The two bytes `delim` and `}` stand at `i`.
pub open spec fn closer_at(b: Seq<u8>, i: int, delim: u8) -> bool {
    0 <= i && i + 1 < b.len() && b[i] == delim && b[i + 1] == 0x7d
}

/// The index behind the first `delim}` at or after `from`.
pub open spec fn plain_close(b: Seq<u8>, from: int, delim: u8) -> Option<int>
    decreases b.len() - from,
{
    if from + 1 >= b.len() {
        None
    } else if closer_at(b, from, delim) {
        Some(from + 2)
    } else {
        plain_close(b, from + 1, delim)
    }
}

/// The index behind the first `delim}` at or after `from`, whatever quotes
/// stand in between; `None` where there is no such closer.
pub fn find_close(bytes: &[u8], from: usize, delim: u8) -> (r: Option<usize>)
    ensures
        match r {
            Some(e) => plain_close(bytes@, from as int, delim) == Some(e as int),
            None => plain_close(bytes@, from as int, delim) is None,
        },
        r matches Some(e) ==> from + 2 <= e <= bytes@.len() && closer_at(bytes@, e - 2, delim)
            && forall|j: int| from <= j < e - 2 ==> !closer_at(bytes@, j, delim),
        r is None ==> forall|j: int| from <= j ==> !closer_at(bytes@, j, delim),
{
    let n: usize = bytes.len();
    let mut i: usize = from;
    while i < n && n - i > 1
        invariant
            n == bytes@.len(),
            from <= i,
            i <= n || i == from,
            plain_close(bytes@, from as int, delim) == plain_close(bytes@, i as int, delim),
            forall|j: int| from <= j < i ==> !closer_at(bytes@, j, delim),
        decreases n - i,
    {
        if bytes[i] == delim && bytes[i + 1] == 0x7d {
            return Some(i + 2);
        }
        i += 1;
    }
    None
}

// ---------------------------------------------------------------------
// String literals
// ---------------------------------------------------------------------

/// A single or a double quote.
pub open spec fn is_quote(b: u8) -> bool {
    b == 0x27 || b == 0x22
}

/// One step of a scan that knows whether it is inside a string literal, and
/// which quote opened it: the next index and the state there. Inside a
/// literal a backslash takes the byte behind it along.
pub open spec fn quote_step(b: Seq<u8>, i: int, quote: Option<u8>) -> (int, Option<u8>) {
    match quote {
        Some(q) => if b[i] == 0x5c && i + 1 < b.len() {
            (i + 2, quote)
        } else if b[i] == q {
            (i + 1, None)
        } else {
            (i + 1, quote)
        },
        None => if is_quote(b[i]) {
            (i + 1, Some(b[i]))
        } else {
            (i + 1, None)
        },
    }
}

/// The state of such a scan that stands at `i` in state `quote`, once it has
/// reached `to`.
pub open spec fn quote_at(b: Seq<u8>, i: int, quote: Option<u8>, to: int) -> Option<u8>
    decreases to - i + 1,
{
    if i >= to {
        quote
    } else {
        let (j, q) = quote_step(b, i, quote);
        if j > i {
            quote_at(b, j, q, to)
        } else {
            quote
        }
    }
}

/// Advances the scan for string literals by one step from `i`, and returns
/// the next index.
pub fn step_string_scan(bytes: &[u8], i: usize, quote: &mut Option<u8>) -> (r: usize)
    requires
        i < bytes@.len(),
    ensures
        (r as int, *final(quote)) == quote_step(bytes@, i as int, *old(quote)),
{
    let b: u8 = bytes[i];
    match *quote {
        Some(q) => {
            if b == 0x5c && i + 1 < bytes.len() {
                return i + 2;
            }
            if b == q {
                *quote = None;
            }
        },
        None => {
            if b == 0x27 || b == 0x22 {
                *quote = Some(b);
            }
        },
    }
    i + 1
}

/// Whether the byte offset `at` lies inside a quoted string literal.
pub fn offset_in_string_literal(bytes: &[u8], at: usize) -> (r: bool)
    requires
        at <= bytes@.len(),
    ensures
        r == (quote_at(bytes@, 0, None, at as int) is Some),
{
    let mut quote: Option<u8> = None;
    let mut i: usize = 0;
    while i < at
        invariant
            at <= bytes@.len(),
            quote_at(bytes@, 0, None, at as int) == quote_at(bytes@, i as int, quote, at as int),
        decreases at - i + 1,
    {
        i = step_string_scan(bytes, i, &mut quote);
    }
    quote.is_some()
}

/// The index behind the first `delim}` that a scan standing at `i` in state
/// `quote` meets outside string literals.
pub open spec fn expr_close(b: Seq<u8>, i: int, quote: Option<u8>, delim: u8) -> Option<int>
    decreases b.len() - i,
{
    if i >= b.len() {
        None
    } else if quote is None && !is_quote(b[i]) && closer_at(b, i, delim) {
        Some(i + 2)
    } else {
        let (j, q) = quote_step(b, i, quote);
        if j > i {
            expr_close(b, j, q, delim)
        } else {
            None
        }
    }
}

/// The index behind the first `delim}` at or after `from` that stands
/// outside string literals; `None` where the tag is not terminated.
pub fn find_expr_close(bytes: &[u8], from: usize, delim: u8) -> (r: Option<usize>)
    ensures
        match r {
            Some(e) => expr_close(bytes@, from as int, None, delim) == Some(e as int),
            None => expr_close(bytes@, from as int, None, delim) is None,
        },
        r matches Some(e) ==> from + 2 <= e <= bytes@.len() && closer_at(bytes@, e - 2, delim),
{
    let n: usize = bytes.len();
    let mut i: usize = from;
    let mut quote: Option<u8> = None;
    while i < n
        invariant
            n == bytes@.len(),
            from <= i,
            expr_close(bytes@, from as int, None, delim) == expr_close(
                bytes@,
                i as int,
                quote,
                delim,
            ),
        decreases n - i,
    {
        let b: u8 = bytes[i];
        if quote.is_none() && b != 0x27 && b != 0x22 && b == delim && i + 1 < n && bytes[i + 1]
            == 0x7d {
            return Some(i + 2);
        }
        i = step_string_scan(bytes, i, &mut quote);
    }
    None
}

// ---------------------------------------------------------------------
// Identifier edges and calls
// ---------------------------------------------------------------------

/// An ASCII letter, an ASCII digit or an underscore.
pub open spec fn word_byte(b: u8) -> bool {
    0x30 <= b <= 0x39 || 0x41 <= b <= 0x5a || 0x61 <= b <= 0x7a || b == 0x5f
}

/// Whether `b` is an ASCII letter, an ASCII digit or an underscore.
pub fn is_word_byte(b: u8) -> (r: bool)
    ensures
        r == word_byte(b),
{
    (0x30 <= b && b <= 0x39) || (0x41 <= b && b <= 0x5a) || (0x61 <= b && b <= 0x7a) || b == 0x5f
}

/// ASCII white space: space, tab, line feed, form feed or carriage return.
pub open spec fn blank_byte(b: u8) -> bool {
    b == 0x20 || b == 0x09 || b == 0x0a || b == 0x0c || b == 0x0d
}

/// Whether `b` is ASCII white space.
pub fn is_blank_byte(b: u8) -> (r: bool)
    ensures
        r == blank_byte(b),
{
    b == 0x20 || b == 0x09 || b == 0x0a || b == 0x0c || b == 0x0d
}

/// No word byte stands directly before `at`.
pub open spec fn left_edge(b: Seq<u8>, at: int) -> bool {
    at == 0 || !word_byte(b[at - 1])
}

/// No word byte stands at `after`.
pub open spec fn right_edge(b: Seq<u8>, after: int) -> bool {
    after >= b.len() || !word_byte(b[after])
}

/// The first index at or after `i` that holds no ASCII white space.
pub open spec fn past_blanks(b: Seq<u8>, i: int) -> int
    decreases b.len() - i,
{
    if 0 <= i < b.len() && blank_byte(b[i]) {
        past_blanks(b, i + 1)
    } else {
        i
    }
}

/// An opening parenthesis stands at `after` or behind white space there.
pub open spec fn paren_follows(b: Seq<u8>, after: int) -> bool {
    let j = past_blanks(b, after);
    j < b.len() && b[j] == 0x28
}

/// Whether no word byte stands directly before `at`.
pub fn token_left_boundary_ok(bytes: &[u8], at: usize) -> (r: bool)
    requires
        at <= bytes@.len(),
    ensures
        r == left_edge(bytes@, at as int),
{
    at == 0 || !is_word_byte(bytes[at - 1])
}

/// Whether no word byte stands at `after`.
pub fn token_right_boundary_ok(bytes: &[u8], after: usize) -> (r: bool)
    ensures
        r == right_edge(bytes@, after as int),
{
    after >= bytes.len() || !is_word_byte(bytes[after])
}

/// The first index at or after `i` that holds no ASCII white space.
pub fn skip_ws_bytes(bytes: &[u8], i: usize) -> (r: usize)
    ensures
        r == past_blanks(bytes@, i as int),
        i <= r,
        i <= bytes@.len() ==> r <= bytes@.len(),
{
    let mut j: usize = i;
    while j < bytes.len() && is_blank_byte(bytes[j])
        invariant
            i <= j,
            i <= bytes@.len() ==> j <= bytes@.len(),
            past_blanks(bytes@, i as int) == past_blanks(bytes@, j as int),
        decreases bytes@.len() - j,
    {
        j += 1;
    }
    j
}

/// Whether an opening parenthesis stands at `after`, or behind ASCII white
/// space there.
pub fn call_paren_follows(bytes: &[u8], after: usize) -> (r: bool)
    ensures
        r == paren_follows(bytes@, after as int),
{
    let j: usize = skip_ws_bytes(bytes, after);
    j < bytes.len() && bytes[j] == 0x28
}

// ---------------------------------------------------------------------
// Literal search
// ---------------------------------------------------------------------

/// `needle` stands in `b` at index `at`.
pub open spec fn occurs(b: Seq<u8>, needle: Seq<u8>, at: int) -> bool {
    0 <= at && at + needle.len() <= b.len() && b.subrange(at, at + needle.len()) == needle
}

/// The first index at or after `from` where `needle` stands in `b`.
pub open spec fn first_from(b: Seq<u8>, needle: Seq<u8>, from: int) -> Option<int>
    decreases b.len() - from + 1,
{
    if from < 0 || from + needle.len() > b.len() {
        None
    } else if occurs(b, needle, from) {
        Some(from)
    } else {
        first_from(b, needle, from + 1)
    }
}

/// `first_from` is the least index at or after `from` where `needle` stands.
pub proof fn lemma_first_from(b: Seq<u8>, needle: Seq<u8>, from: int)
    requires
        0 <= from,
    ensures
        match first_from(b, needle, from) {
            Some(at) => from <= at && occurs(b, needle, at) && forall|j: int|
                from <= j < at ==> !occurs(b, needle, j),
            None => forall|j: int| from <= j ==> !occurs(b, needle, j),
        },
    decreases b.len() - from + 1,
{
    if from + needle.len() <= b.len() && !occurs(b, needle, from) {
        lemma_first_from(b, needle, from + 1);
    }
}

/// Whether `needle` stands in `bytes` at index `at`.
pub fn occurs_at(bytes: &[u8], needle: &[u8], at: usize) -> (r: bool)
    ensures
        r == occurs(bytes@, needle@, at as int),
{
    let n: usize = bytes.len();
    let m: usize = needle.len();
    if at > n || n - at < m {
        return false;
    }
    let mut k: usize = 0;
    while k < m
        invariant
            k <= m == needle@.len(),
            at + m <= n == bytes@.len(),
            forall|j: int| 0 <= j < k ==> bytes@[at + j] == needle@[j],
        decreases m - k,
    {
        if bytes[at + k] != needle[k] {
            assert(bytes@.subrange(at as int, at + m)[k as int] != needle@[k as int]);
            return false;
        }
        k += 1;
    }
    assert(bytes@.subrange(at as int, at + m) == needle@);
    true
}

/// The first index at or after `from` where `needle` stands in `bytes`.
pub fn find_bytes(bytes: &[u8], needle: &[u8], from: usize) -> (r: Option<usize>)
    ensures
        match r {
            Some(at) => first_from(bytes@, needle@, from as int) == Some(at as int),
            None => first_from(bytes@, needle@, from as int) is None,
        },
        r matches Some(at) ==> from <= at && at + needle@.len() <= bytes@.len(),
{
    let n: usize = bytes.len();
    let m: usize = needle.len();
    let mut i: usize = from;
    while i <= n && n - i >= m
        invariant
            n == bytes@.len(),
            m == needle@.len(),
            from <= i,
            first_from(bytes@, needle@, from as int) == first_from(bytes@, needle@, i as int),
        decreases n - i + 1,
    {
        if occurs_at(bytes, needle, i) {
            return Some(i);
        }
        if i == n {
            assert(first_from(bytes@, needle@, i + 1) is None);
            return None;
        }
        i += 1;
    }
    None
}

// ---------------------------------------------------------------------
// Laws
// ---------------------------------------------------------------------

/// Law: the word bytes are the digits, the letters of both cases and the
/// underscore; the blank bytes are the tab, the line feed, the form feed, the
/// carriage return and the space; the quotes are the single and the double
/// one.
pub proof fn law_byte_classes(b: u8)
    ensures
        word_byte(b) <==> (48 <= b <= 57 || 65 <= b <= 90 || 97 <= b <= 122 || b == 95),
        blank_byte(b) <==> (b == 9 || b == 10 || b == 12 || b == 13 || b == 32),
        is_quote(b) <==> (b == 39 || b == 34),
{
}

/// Law: a name has an edge to the left at the beginning or behind a byte that
/// is no word byte, and an edge to the right at the end or before such a byte.
pub proof fn law_edges(b: Seq<u8>, at: int)
    requires
        0 <= at <= b.len(),
    ensures
        left_edge(b, at) <==> (at > 0 ==> !word_byte(b[at - 1])),
        right_edge(b, at) <==> (at < b.len() ==> !word_byte(b[at])),
{
}

/// Law: a needle stands at a place exactly where each of its bytes stands
/// there.
pub proof fn law_occurs(b: Seq<u8>, needle: Seq<u8>, at: int)
    ensures
        occurs(b, needle, at) <==> 0 <= at && at + needle.len() <= b.len() && forall|k: int|
            0 <= k < needle.len() ==> b[at + k] == #[trigger] needle[k],
{
    if 0 <= at && at + needle.len() <= b.len() {
        let part = b.subrange(at, at + needle.len());
        if part == needle {
            assert forall|k: int| 0 <= k < needle.len() implies b[at + k] == #[trigger] needle[k] by {
                assert(part[k] == needle[k]);
            }
        }
        if forall|k: int| 0 <= k < needle.len() ==> b[at + k] == #[trigger] needle[k] {
            assert(part =~= needle);
        }
    }
}

/// Law: the first place of a needle is a place where it stands, and it stands
/// at none between; where there is no first place it stands nowhere.
pub proof fn law_first_place(b: Seq<u8>, needle: Seq<u8>, from: int, at: int)
    requires
        0 <= from <= at,
    ensures
        first_from(b, needle, from) == Some(at) <==> occurs(b, needle, at) && forall|j: int|
            from <= j < at ==> !occurs(b, needle, j),
        first_from(b, needle, from) is None ==> !occurs(b, needle, at),
{
    lemma_first_from(b, needle, from);
}

/// Law: a literal closer is found at its first place: two bytes, the
/// delimiter and a closing brace.
pub proof fn law_plain_close(b: Seq<u8>, from: int, delim: u8, at: int)
    requires
        0 <= from <= at,
    ensures
        plain_close(b, from, delim) == Some(at + 2) <==> at + 1 < b.len() && b[at] == delim && b[at
            + 1] == 125 && forall|j: int|
            from <= j < at ==> !(#[trigger] b[j] == delim && b[j + 1] == 125),
        plain_close(b, from, delim) is None && at + 1 < b.len() ==> !(b[at] == delim && b[at + 1]
            == 125),
    decreases b.len() - from,
{
    if from + 1 < b.len() {
        if closer_at(b, from, delim) {
            if at > from {
                assert(b[from] == delim && b[from + 1] == 125);
            }
        } else {
            if at > from {
                law_plain_close(b, from + 1, delim, at);
            } else {
                lemma_plain_close_behind(b, from + 1, delim);
            }
        }
    }
}

proof fn lemma_plain_close_behind(b: Seq<u8>, from: int, delim: u8)
    ensures
        plain_close(b, from, delim) matches Some(e) ==> e >= from + 2,
    decreases b.len() - from,
{
    if from + 1 < b.len() && !closer_at(b, from, delim) {
        lemma_plain_close_behind(b, from + 1, delim);
    }
}

/// Law: outside string literals a quote opens one; inside, the same quote
/// closes it and a backslash takes the byte behind it along; nothing else
/// changes the state. At its goal the scan has the state it stands in.
pub proof fn law_quote_scan(b: Seq<u8>, i: int, q: u8, to: int)
    requires
        0 <= i < to <= b.len(),
    ensures
        b[i] == 39 || b[i] == 34 ==> quote_at(b, i, None, to) == quote_at(b, i + 1, Some(b[i]), to),
        b[i] != 39 && b[i] != 34 ==> quote_at(b, i, None, to) == quote_at(b, i + 1, None, to),
        b[i] == 92 && i + 1 < b.len() ==> quote_at(b, i, Some(q), to) == quote_at(
            b,
            i + 2,
            Some(q),
            to,
        ),
        b[i] != 92 && b[i] == q ==> quote_at(b, i, Some(q), to) == quote_at(b, i + 1, None, to),
        b[i] != 92 && b[i] != q ==> quote_at(b, i, Some(q), to) == quote_at(b, i + 1, Some(q), to),
        quote_at(b, to, None, to) is None,
        quote_at(b, to, Some(q), to) == Some(q),
        quote_at(b, to + 1, Some(q), to) == Some(q),
{
}

/// Law: from an opening quote up to the same quote, with neither that quote
/// nor a backslash between, everything lies inside a literal; behind it the
/// scan goes on outside.
pub proof fn law_literal(b: Seq<u8>, i: int, j: int, to: int)
    requires
        0 <= i < j < b.len(),
        b[i] == 39 || b[i] == 34,
        b[j] == b[i],
        forall|k: int| i < k < j ==> #[trigger] b[k] != b[i] && b[k] != 92,
        i < to <= b.len(),
    ensures
        to <= j ==> quote_at(b, i, None, to) == Some(b[i]),
        to > j ==> quote_at(b, i, None, to) == quote_at(b, j + 1, None, to),
{
    lemma_inside(b, i + 1, b[i], j, to);
}

proof fn lemma_inside(b: Seq<u8>, i: int, q: u8, j: int, to: int)
    requires
        0 <= i <= j < b.len(),
        q == 39 || q == 34,
        b[j] == q,
        forall|k: int| i <= k < j ==> #[trigger] b[k] != q && b[k] != 92,
        i <= to <= b.len(),
    ensures
        to <= j ==> quote_at(b, i, Some(q), to) == Some(q),
        to > j ==> quote_at(b, i, Some(q), to) == quote_at(b, j + 1, None, to),
    decreases j - i,
{
    if i < to && i < j {
        assert(b[i] != q && b[i] != 92);
        lemma_inside(b, i + 1, q, j, to);
    }
}

/// Law: a tag is closed by the delimiter and a closing brace outside string
/// literals. Outside, a quote opens a literal and anything else is passed;
/// inside, the same quote closes it, a backslash takes the byte behind it
/// along, and a closer does not count. At the end of the text the tag is not
/// closed.
pub proof fn law_expr_close(b: Seq<u8>, i: int, q: u8, delim: u8)
    requires
        0 <= i < b.len(),
        delim != 39 && delim != 34,
    ensures
        expr_close(b, b.len() as int, None, delim) is None,
        expr_close(b, b.len() as int, Some(q), delim) is None,
        b[i] == delim && i + 1 < b.len() && b[i + 1] == 125 ==> expr_close(b, i, None, delim)
            == Some(i + 2),
        b[i] == 39 || b[i] == 34 ==> expr_close(b, i, None, delim) == expr_close(
            b,
            i + 1,
            Some(b[i]),
            delim,
        ),
        b[i] != 39 && b[i] != 34 && !(b[i] == delim && i + 1 < b.len() && b[i + 1] == 125)
            ==> expr_close(b, i, None, delim) == expr_close(b, i + 1, None, delim),
        b[i] == 92 && i + 1 < b.len() ==> expr_close(b, i, Some(q), delim) == expr_close(
            b,
            i + 2,
            Some(q),
            delim,
        ),
        b[i] != 92 && b[i] == q ==> expr_close(b, i, Some(q), delim) == expr_close(
            b,
            i + 1,
            None,
            delim,
        ),
        b[i] != 92 && b[i] != q ==> expr_close(b, i, Some(q), delim) == expr_close(
            b,
            i + 1,
            Some(q),
            delim,
        ),
{
}

/// Law: an opening parenthesis follows exactly where one stands behind
/// nothing but blanks.
pub proof fn law_paren_follows(b: Seq<u8>, after: int)
    requires
        0 <= after,
    ensures
        paren_follows(b, after) <==> exists|j: int|
            after <= j < b.len() && #[trigger] b[j] == 40 && forall|k: int|
                after <= k < j ==> blank_byte(#[trigger] b[k]),
    decreases b.len() - after,
{
    if after < b.len() {
        if blank_byte(b[after]) {
            law_paren_follows(b, after + 1);
            if paren_follows(b, after) {
                let j = choose|j: int|
                    after + 1 <= j < b.len() && #[trigger] b[j] == 40 && forall|k: int|
                        after + 1 <= k < j ==> blank_byte(#[trigger] b[k]);
                assert(after <= j < b.len() && b[j] == 40);
            }
            if exists|j: int|
                after <= j < b.len() && #[trigger] b[j] == 40 && forall|k: int|
                    after <= k < j ==> blank_byte(#[trigger] b[k]) {
                let j = choose|j: int|
                    after <= j < b.len() && #[trigger] b[j] == 40 && forall|k: int|
                        after <= k < j ==> blank_byte(#[trigger] b[k]);
                assert(j != after);
                assert(after + 1 <= j < b.len() && b[j] == 40);
            }
        } else {
            if paren_follows(b, after) {
                assert(b[after] == 40);
            }
            if exists|j: int|
                after <= j < b.len() && #[trigger] b[j] == 40 && forall|k: int|
                    after <= k < j ==> blank_byte(#[trigger] b[k]) {
                let j = choose|j: int|
                    after <= j < b.len() && #[trigger] b[j] == 40 && forall|k: int|
                        after <= k < j ==> blank_byte(#[trigger] b[k]);
                assert(j == after) by {
                    if j > after {
                        assert(blank_byte(b[after]));
                    }
                }
            }
        }
    }
}

} // verus!
