//! Text primitives: characters, trimming, splitting, joining, numbers in
//! decimal and ASCII case folding, each stated over the character sequence
//! of the text.
use vstd::prelude::*;
use vstd::string::*;

verus! {

/// `String::push` appends one character at the end of the string.
pub assume_specification[ String::push ](s: &mut String, c: char)
    ensures
        final(s)@ == old(s)@.push(c),
;

/// The characters of `s`, in order.
pub fn chars_of(s: &str) -> (v: Vec<char>)
    ensures
        v@ == s@,
{
    let mut v: Vec<char> = Vec::new();
    for c in it: s.chars()
        invariant
            it.seq() == s@,
            v@ == s@.take(it.index() as int),
    {
        v.push(c);
        assert(v@ == s@.take(it.index() as int + 1));
    }
    v
}

/// Whether two texts hold the same characters.
pub fn same_text(a: &str, b: &str) -> (r: bool)
    ensures
        r == (a@ == b@),
{
    let x: String = a.to_owned();
    let y: String = b.to_owned();
    x == y
}

/// The views of a list of strings.
pub open spec fn texts(v: Seq<String>) -> Seq<Seq<char>> {
    Seq::new(v.len(), |i: int| v[i]@)
}

/// The view of an optional string.
pub open spec fn opt_text(o: Option<String>) -> Option<Seq<char>> {
    match o {
        Some(s) => Some(s@),
        None => None,
    }
}

/// The view of an optional string slice.
pub open spec fn opt_str(o: Option<&str>) -> Option<Seq<char>> {
    match o {
        Some(s) => Some(s@),
        None => None,
    }
}

/// Whether two optional texts are the same.
pub fn same_opt(a: &Option<String>, b: &Option<String>) -> (r: bool)
    ensures
        r == (opt_text(*a) == opt_text(*b)),
{
    match (a, b) {
        (Some(x), Some(y)) => same_text(x.as_str(), y.as_str()),
        (None, None) => true,
        _ => false,
    }
}

// ---------------------------------------------------------------------
// Character classes
// ---------------------------------------------------------------------

/// The characters with the Unicode `White_Space` property.
pub open spec fn is_white(c: char) -> bool {
    let u = c as u32;
    ||| 0x09 <= u <= 0x0d
    ||| u == 0x20
    ||| u == 0x85
    ||| u == 0xa0
    ||| u == 0x1680
    ||| 0x2000 <= u <= 0x200a
    ||| u == 0x2028
    ||| u == 0x2029
    ||| u == 0x202f
    ||| u == 0x205f
    ||| u == 0x3000
}

/// Whether `c` has the Unicode `White_Space` property.
pub fn white(c: char) -> (r: bool)
    ensures
        r == is_white(c),
{
    let u: u32 = c as u32;
    (0x09 <= u && u <= 0x0d) || u == 0x20 || u == 0x85 || u == 0xa0 || u == 0x1680 || (0x2000 <= u
        && u <= 0x200a) || u == 0x2028 || u == 0x2029 || u == 0x202f || u == 0x205f || u == 0x3000
}

/// A set of characters to strip from the ends of a text.
pub enum Class {
    /// Unicode white space.
    White,
    /// One given character.
    Is(char),
    /// One of two given characters.
    Either(char, char),
}

impl Class {
    /// Whether `c` belongs to the class.
    pub open spec fn has(self, c: char) -> bool {
        match self {
            Class::White => is_white(c),
            Class::Is(a) => c == a,
            Class::Either(a, b) => c == a || c == b,
        }
    }

    /// Whether `c` belongs to the class.
    pub fn test(&self, c: char) -> (r: bool)
        ensures
            r == self.has(c),
    {
        match self {
            Class::White => white(c),
            Class::Is(a) => c == *a,
            Class::Either(a, b) => c == *a || c == *b,
        }
    }
}

// ---------------------------------------------------------------------
// Stripping
// ---------------------------------------------------------------------

/// `s` without its leading run of characters of class `k`.
pub open spec fn strip_front(k: Class, s: Seq<char>) -> Seq<char>
    decreases s.len(),
{
    if s.len() > 0 && k.has(s[0]) {
        strip_front(k, s.drop_first())
    } else {
        s
    }
}

/// `s` without its trailing run of characters of class `k`.
pub open spec fn strip_back(k: Class, s: Seq<char>) -> Seq<char>
    decreases s.len(),
{
    if s.len() > 0 && k.has(s.last()) {
        strip_back(k, s.drop_last())
    } else {
        s
    }
}

/// `s` without white space at either end.
pub open spec fn trimmed(s: Seq<char>) -> Seq<char> {
    strip_back(Class::White, strip_front(Class::White, s))
}

/// `s` without its leading run of characters of class `k`.
pub fn strip_start<'a>(k: Class, s: &'a str) -> (r: &'a str)
    ensures
        r@ == strip_front(k, s@),
{
    let v: Vec<char> = chars_of(s);
    let mut i: usize = 0;
    assert(s@.skip(0) == s@);
    while i < v.len() && k.test(v[i])
        invariant
            i <= v@.len(),
            v@ == s@,
            strip_front(k, s@.skip(i as int)) == strip_front(k, s@),
        decreases v@.len() - i,
    {
        assert(s@.skip(i as int).drop_first() == s@.skip(i as int + 1));
        i += 1;
    }
    assert(s@.skip(i as int) == s@.subrange(i as int, v@.len() as int));
    s.substring_char(i, v.len())
}

/// `s` without its trailing run of characters of class `k`.
pub fn strip_end<'a>(k: Class, s: &'a str) -> (r: &'a str)
    ensures
        r@ == strip_back(k, s@),
{
    let v: Vec<char> = chars_of(s);
    let mut i: usize = v.len();
    assert(s@.take(i as int) == s@);
    while i > 0 && k.test(v[i - 1])
        invariant
            i <= v@.len(),
            v@ == s@,
            strip_back(k, s@.take(i as int)) == strip_back(k, s@),
        decreases i,
    {
        assert(s@.take(i as int).drop_last() == s@.take(i as int - 1));
        i -= 1;
    }
    assert(s@.take(i as int) == s@.subrange(0, i as int));
    s.substring_char(0, i)
}

/// `s` without white space at either end.
pub fn trim<'a>(s: &'a str) -> (r: &'a str)
    ensures
        r@ == trimmed(s@),
{
    strip_end(Class::White, strip_start(Class::White, s))
}

// ---------------------------------------------------------------------
// Splitting and joining
// ---------------------------------------------------------------------

/// The pieces of `s` between the occurrences of `sep`: read left to right,
/// a separator begins a new piece and any other character extends the last.
pub open spec fn split_on(s: Seq<char>, sep: char) -> Seq<Seq<char>>
    decreases s.len(),
{
    if s.len() == 0 {
        seq![Seq::<char>::empty()]
    } else {
        let head = split_on(s.drop_last(), sep);
        if s.last() == sep {
            head.push(Seq::<char>::empty())
        } else {
            head.update(head.len() - 1, head.last().push(s.last()))
        }
    }
}

/// A split text has at least one piece.
pub proof fn lemma_split_some(s: Seq<char>, sep: char)
    ensures
        split_on(s, sep).len() >= 1,
    decreases s.len(),
{
    if s.len() > 0 {
        lemma_split_some(s.drop_last(), sep);
    }
}

/// The pieces of `s` between the occurrences of `sep`.
pub fn split(s: &str, sep: char) -> (r: Vec<String>)
    ensures
        texts(r@) == split_on(s@, sep),
        r@.len() >= 1,
{
    let v: Vec<char> = chars_of(s);
    let mut done: Vec<String> = Vec::new();
    let mut piece: String = String::new();
    let mut i: usize = 0;
    assert(s@.take(0) == Seq::<char>::empty());
    assert(split_on(s@.take(0), sep) == texts(done@).push(piece@));
    while i < v.len()
        invariant
            i <= v@.len(),
            v@ == s@,
            split_on(s@.take(i as int), sep) == texts(done@).push(piece@),
        decreases v@.len() - i,
    {
        let c: char = v[i];
        assert(s@.take(i as int + 1).drop_last() == s@.take(i as int));
        let ghost before = texts(done@).push(piece@);
        if c == sep {
            done.push(piece);
            assert(texts(done@) == before);
            piece = String::new();
        } else {
            piece.push(c);
            assert(texts(done@).push(piece@) == before.update(
                before.len() - 1,
                before.last().push(c),
            ));
        }
        i += 1;
    }
    assert(s@.take(i as int) == s@);
    let ghost before = texts(done@).push(piece@);
    done.push(piece);
    assert(texts(done@) == before);
    done
}

/// `parts` laid end to end with `sep` between neighbours.
pub open spec fn joined(parts: Seq<Seq<char>>, sep: Seq<char>) -> Seq<char>
    decreases parts.len(),
{
    if parts.len() == 0 {
        Seq::empty()
    } else if parts.len() == 1 {
        parts[0]
    } else {
        joined(parts.drop_last(), sep) + sep + parts.last()
    }
}

/// `parts` laid end to end with `sep` between neighbours.
pub fn join(parts: &Vec<String>, sep: &str) -> (r: String)
    ensures
        r@ == joined(texts(parts@), sep@),
{
    let mut out: String = String::new();
    let mut i: usize = 0;
    assert(texts(parts@).take(0) == Seq::<Seq<char>>::empty());
    while i < parts.len()
        invariant
            i <= parts@.len(),
            out@ == joined(texts(parts@).take(i as int), sep@),
        decreases parts@.len() - i,
    {
        assert(texts(parts@).take(i as int + 1).drop_last() == texts(parts@).take(i as int));
        if i > 0 {
            out.append(sep);
        } else {
            assert(out@ == Seq::<char>::empty());
        }
        out.append(parts[i].as_str());
        if i == 0 {
            assert(out@ == parts@[0]@);
        }
        i += 1;
    }
    assert(texts(parts@).take(i as int) == texts(parts@));
    out
}

/// The part of `s` behind its last `sep`, or all of `s` where it has none.
pub open spec fn after_last(s: Seq<char>, sep: char) -> Seq<char> {
    split_on(s, sep).last()
}

/// The part of `s` behind its last `sep`, or all of `s` where it has none.
pub fn last_piece<'a>(s: &'a str, sep: char) -> (r: &'a str)
    ensures
        r@ == after_last(s@, sep),
{
    let v: Vec<char> = chars_of(s);
    let mut start: usize = 0;
    let mut i: usize = 0;
    assert(s@.take(0) == Seq::<char>::empty());
    assert(s@.subrange(0, 0) == Seq::<char>::empty());
    while i < v.len()
        invariant
            start <= i <= v@.len(),
            v@ == s@,
            after_last(s@.take(i as int), sep) == s@.subrange(start as int, i as int),
        decreases v@.len() - i,
    {
        assert(s@.take(i as int + 1).drop_last() == s@.take(i as int));
        proof {
            lemma_split_some(s@.take(i as int), sep);
        }
        if v[i] == sep {
            start = i + 1;
        }
        assert(s@.subrange(start as int, i + 1) == if v@[i as int] == sep {
            Seq::<char>::empty()
        } else {
            s@.subrange(start as int, i as int).push(v@[i as int])
        });
        i += 1;
    }
    assert(s@.take(i as int) == s@);
    s.substring_char(start, v.len())
}

/// `s` behind the prefix `p`; `None` where `s` does not begin with `p`.
pub fn without_prefix<'a>(s: &'a str, p: &str) -> (r: Option<&'a str>)
    ensures
        r is Some <==> p@.is_prefix_of(s@),
        r matches Some(t) ==> t@ == s@.skip(p@.len() as int),
{
    let v: Vec<char> = chars_of(s);
    let w: Vec<char> = chars_of(p);
    if w.len() > v.len() {
        return None;
    }
    let mut i: usize = 0;
    while i < w.len()
        invariant
            i <= w@.len() <= v@.len(),
            v@ == s@,
            w@ == p@,
            forall|j: int| 0 <= j < i ==> v@[j] == w@[j],
        decreases w@.len() - i,
    {
        if v[i] != w[i] {
            assert(s@.subrange(0, p@.len() as int)[i as int] != p@[i as int]);
            return None;
        }
        i += 1;
    }
    assert(p@ == s@.subrange(0, p@.len() as int));
    let r: &'a str = s.substring_char(w.len(), v.len());
    assert(r@ == s@.skip(p@.len() as int));
    Some(r)
}

/// `s` before the suffix `p`; `None` where `s` does not end with `p`.
pub fn without_suffix<'a>(s: &'a str, p: &str) -> (r: Option<&'a str>)
    ensures
        r is Some <==> p@.is_suffix_of(s@),
        r matches Some(t) ==> t@ == s@.take(s@.len() - p@.len()),
{
    let v: Vec<char> = chars_of(s);
    let w: Vec<char> = chars_of(p);
    if w.len() > v.len() {
        return None;
    }
    let k: usize = v.len() - w.len();
    let mut i: usize = 0;
    while i < w.len()
        invariant
            i <= w@.len(),
            k + w.len() == v.len(),
            v@ == s@,
            w@ == p@,
            forall|j: int| 0 <= j < i ==> v@[k + j] == w@[j],
        decreases w@.len() - i,
    {
        if v[k + i] != w[i] {
            assert(s@.subrange(s@.len() - p@.len(), s@.len() as int)[i as int] != p@[i as int]);
            return None;
        }
        i += 1;
    }
    assert(p@ == s@.subrange(s@.len() - p@.len(), s@.len() as int));
    let r: &'a str = s.substring_char(0, k);
    assert(r@ == s@.take(s@.len() - p@.len()));
    Some(r)
}

/// What stands in `s` behind the first `c`; `None` where `c` does not stand
/// in `s`.
pub open spec fn behind_first(s: Seq<char>, c: char) -> Option<Seq<char>>
    decreases s.len(),
{
    if s.len() == 0 {
        None
    } else if s[0] == c {
        Some(s.drop_first())
    } else {
        behind_first(s.drop_first(), c)
    }
}

/// What stands in `s` behind the first `c`; `None` where `c` does not stand
/// in `s`.
pub fn after_first<'a>(s: &'a str, c: char) -> (r: Option<&'a str>)
    ensures
        opt_str(r) == behind_first(s@, c),
{
    let v: Vec<char> = chars_of(s);
    let mut i: usize = 0;
    assert(s@.skip(0) == s@);
    while i < v.len()
        invariant
            i <= v@.len(),
            v@ == s@,
            behind_first(s@, c) == behind_first(s@.skip(i as int), c),
        decreases v@.len() - i,
    {
        assert(s@.skip(i as int).drop_first() == s@.skip(i as int + 1));
        if v[i] == c {
            let r: &'a str = s.substring_char(i + 1, v.len());
            assert(r@ == s@.skip(i as int + 1));
            return Some(r);
        }
        i += 1;
    }
    None
}

/// The leading run of characters of `s` that are no white space.
pub open spec fn head_word(s: Seq<char>) -> Seq<char>
    decreases s.len(),
{
    if s.len() == 0 || is_white(s[0]) {
        Seq::empty()
    } else {
        seq![s[0]] + head_word(s.drop_first())
    }
}

/// The first word of `s`, words being separated by white space; empty where
/// `s` has none.
pub open spec fn first_word(s: Seq<char>) -> Seq<char> {
    head_word(strip_front(Class::White, s))
}

/// The first word of `s`; empty where `s` has none.
pub fn leading_word<'a>(s: &'a str) -> (r: &'a str)
    ensures
        r@ == first_word(s@),
{
    let t: &'a str = strip_start(Class::White, s);
    let v: Vec<char> = chars_of(t);
    let mut i: usize = 0;
    assert(t@.skip(0) == t@);
    assert(t@.take(0) + head_word(t@.skip(0)) == head_word(t@));
    while i < v.len() && !white(v[i])
        invariant
            i <= v@.len(),
            v@ == t@,
            head_word(t@) == t@.take(i as int) + head_word(t@.skip(i as int)),
        decreases v@.len() - i,
    {
        assert(t@.skip(i as int).drop_first() == t@.skip(i as int + 1));
        assert(t@.take(i as int) + head_word(t@.skip(i as int)) == t@.take(i as int + 1)
            + head_word(t@.skip(i as int + 1)));
        i += 1;
    }
    assert(head_word(t@) == t@.subrange(0, i as int));
    t.substring_char(0, i)
}

// ---------------------------------------------------------------------
// ASCII case
// ---------------------------------------------------------------------

/// `c` with an ASCII capital letter made small.
pub open spec fn lower_char(c: char) -> char {
    if 'A' <= c <= 'Z' {
        ((c as u32 + 32) as u32) as char
    } else {
        c
    }
}

/// `s` with every ASCII capital letter made small.
pub open spec fn lowered(s: Seq<char>) -> Seq<char> {
    Seq::new(s.len(), |i: int| lower_char(s[i]))
}

/// `c` with an ASCII capital letter made small.
pub fn to_lower(c: char) -> (r: char)
    ensures
        r == lower_char(c),
{
    if 'A' <= c && c <= 'Z' {
        ((c as u8) + 32) as char
    } else {
        c
    }
}

/// Whether two texts are the same up to the case of ASCII letters.
pub fn same_ignoring_case(a: &str, b: &str) -> (r: bool)
    ensures
        r == (lowered(a@) == lowered(b@)),
{
    let x: Vec<char> = chars_of(a);
    let y: Vec<char> = chars_of(b);
    if x.len() != y.len() {
        assert(lowered(a@).len() != lowered(b@).len());
        return false;
    }
    let mut i: usize = 0;
    while i < x.len()
        invariant
            i <= x@.len(),
            x@.len() == y@.len(),
            x@ == a@,
            y@ == b@,
            forall|j: int| 0 <= j < i ==> lower_char(a@[j]) == lower_char(b@[j]),
        decreases x@.len() - i,
    {
        if to_lower(x[i]) != to_lower(y[i]) {
            assert(lowered(a@)[i as int] != lowered(b@)[i as int]);
            return false;
        }
        i += 1;
    }
    assert(lowered(a@) == lowered(b@));
    true
}

// ---------------------------------------------------------------------
// Decimal numbers
// ---------------------------------------------------------------------

/// The decimal digit `d`.
pub open spec fn digit(d: nat) -> char {
    ((48 + d) as u32) as char
}

/// `n` in decimal, without leading zeros.
pub open spec fn decimal(n: nat) -> Seq<char>
    decreases n,
{
    if n < 10 {
        seq![digit(n)]
    } else {
        decimal(n / 10).push(digit(n % 10))
    }
}

/// `n` in decimal, without leading zeros.
pub fn decimal_text(n: usize) -> (r: String)
    ensures
        r@ == decimal(n as nat),
    decreases n,
{
    let d: char = (48 + (n % 10) as u8) as char;
    if n < 10 {
        let mut s: String = String::new();
        s.push(d);
        assert(s@ == seq![digit(n as nat)]);
        s
    } else {
        let mut s: String = decimal_text(n / 10);
        s.push(d);
        s
    }
}

// ---------------------------------------------------------------------
// Laws
// ---------------------------------------------------------------------

/// Law: white space is the tab, the line feed, the vertical tab, the form
/// feed, the carriage return, the space, and the other spaces and separators
/// of Unicode.
pub proof fn law_white(c: char)
    ensures
        is_white(c) <==> (c == '\t' || c == '\n' || c == '\u{b}' || c == '\u{c}' || c == '\r' || c
            == ' ' || c == '\u{85}' || c == '\u{a0}' || c == '\u{1680}' || '\u{2000}' <= c
            <= '\u{200a}' || c == '\u{2028}' || c == '\u{2029}' || c == '\u{202f}' || c
            == '\u{205f}' || c == '\u{3000}'),
{
}

/// Law: a class holds white space, its one character, or its two characters.
pub proof fn law_class(k: Class, c: char)
    ensures
        k is White ==> k.has(c) == is_white(c),
        k matches Class::Is(a) ==> k.has(c) == (c == a),
        k matches Class::Either(a, b) ==> k.has(c) == (c == a || c == b),
{
}

/// Law: the views of a list of strings are those of its strings, in order.
pub proof fn law_texts(v: Seq<String>)
    ensures
        texts(v).len() == v.len(),
        forall|i: int| 0 <= i < v.len() ==> #[trigger] texts(v)[i] == v[i]@,
{
}

/// Law: an optional text has a view exactly where there is a text, and then
/// that of the text.
pub proof fn law_opt_text(o: Option<String>, s: Option<&str>)
    ensures
        opt_text(o) is Some <==> o is Some,
        o matches Some(x) ==> opt_text(o) == Some(x@),
        opt_str(s) is Some <==> s is Some,
        s matches Some(x) ==> opt_str(s) == Some(x@),
{
}

/// Law: stripping the front takes off the longest beginning that is made of
/// the class alone.
pub proof fn law_strip_front(k: Class, s: Seq<char>)
    ensures
        exists|n: int|
            {
                &&& 0 <= n <= s.len()
                &&& strip_front(k, s) == #[trigger] s.skip(n)
                &&& forall|i: int| 0 <= i < n ==> k.has(#[trigger] s[i])
                &&& n < s.len() ==> !k.has(s[n])
            },
    decreases s.len(),
{
    if s.len() > 0 && k.has(s[0]) {
        let rest = s.drop_first();
        law_strip_front(k, rest);
        let n = choose|n: int|
            {
                &&& 0 <= n <= rest.len()
                &&& strip_front(k, rest) == #[trigger] rest.skip(n)
                &&& forall|i: int| 0 <= i < n ==> k.has(#[trigger] rest[i])
                &&& n < rest.len() ==> !k.has(rest[n])
            };
        assert(rest.skip(n) == s.skip(n + 1));
        assert forall|i: int| 0 <= i < n + 1 implies k.has(#[trigger] s[i]) by {
            if i > 0 {
                assert(s[i] == rest[i - 1]);
            }
        }
    } else {
        assert(s.skip(0) == s);
    }
}

/// Law: stripping the back takes off the longest ending that is made of the
/// class alone.
pub proof fn law_strip_back(k: Class, s: Seq<char>)
    ensures
        exists|n: int|
            {
                &&& 0 <= n <= s.len()
                &&& strip_back(k, s) == #[trigger] s.take(n)
                &&& forall|i: int| n <= i < s.len() ==> k.has(#[trigger] s[i])
                &&& n > 0 ==> !k.has(s[n - 1])
            },
    decreases s.len(),
{
    if s.len() > 0 && k.has(s.last()) {
        let rest = s.drop_last();
        law_strip_back(k, rest);
        let n = choose|n: int|
            {
                &&& 0 <= n <= rest.len()
                &&& strip_back(k, rest) == #[trigger] rest.take(n)
                &&& forall|i: int| n <= i < rest.len() ==> k.has(#[trigger] rest[i])
                &&& n > 0 ==> !k.has(rest[n - 1])
            };
        assert(rest.take(n) == s.take(n));
        assert forall|i: int| n <= i < s.len() implies k.has(#[trigger] s[i]) by {
            if i < rest.len() {
                assert(s[i] == rest[i]);
            }
        }
    } else {
        assert(s.take(s.len() as int) == s);
    }
}

/// Law: trimming keeps a middle part, takes off white space alone, and leaves
/// none at the ends.
pub proof fn law_trimmed(s: Seq<char>)
    ensures
        exists|i: int, j: int|
            {
                &&& 0 <= i <= j <= s.len()
                &&& trimmed(s) == #[trigger] s.subrange(i, j)
                &&& forall|k: int| 0 <= k < i || j <= k < s.len() ==> is_white(#[trigger] s[k])
                &&& i < j ==> !is_white(s[i]) && !is_white(s[j - 1])
            },
{
    let front = strip_front(Class::White, s);
    law_strip_front(Class::White, s);
    let i = choose|n: int|
        {
            &&& 0 <= n <= s.len()
            &&& front == #[trigger] s.skip(n)
            &&& forall|i: int| 0 <= i < n ==> Class::White.has(#[trigger] s[i])
            &&& n < s.len() ==> !Class::White.has(s[n])
        };
    law_strip_back(Class::White, front);
    let n = choose|n: int|
        {
            &&& 0 <= n <= front.len()
            &&& trimmed(s) == #[trigger] front.take(n)
            &&& forall|i: int| n <= i < front.len() ==> Class::White.has(#[trigger] front[i])
            &&& n > 0 ==> !Class::White.has(front[n - 1])
        };
    assert(trimmed(s) == s.subrange(i, i + n));
    assert forall|k: int| 0 <= k < i || i + n <= k < s.len() implies is_white(#[trigger] s[k]) by {
        if k < i {
            assert(Class::White.has(s[k]));
        } else {
            assert(s[k] == front[k - i]);
            assert(Class::White.has(front[k - i]));
        }
    }
    if n > 0 {
        assert(s[i + n - 1] == front[n - 1]);
    }
}

/// Law: laid end to end, no parts make the empty text, one part makes itself,
/// and a part more adds the separator and itself.
pub proof fn law_joined(parts: Seq<Seq<char>>, last: Seq<char>, sep: Seq<char>)
    ensures
        joined(Seq::empty(), sep) == Seq::<char>::empty(),
        joined(seq![last], sep) == last,
        parts.len() > 0 ==> joined(parts.push(last), sep) == joined(parts, sep) + sep + last,
{
    assert(parts.push(last).drop_last() == parts);
}

/// Law: the pieces of a split text hold no separator, and laid end to end with
/// the separator between them they make the text again.
pub proof fn law_split(s: Seq<char>, sep: char)
    ensures
        split_on(s, sep).len() >= 1,
        forall|k: int| 0 <= k < split_on(s, sep).len() ==> !(#[trigger] split_on(s, sep)[k]).contains(sep),
        joined(split_on(s, sep), seq![sep]) == s,
    decreases s.len(),
{
    let all = split_on(s, sep);
    if s.len() > 0 {
        let head = split_on(s.drop_last(), sep);
        law_split(s.drop_last(), sep);
        assert(s == s.drop_last().push(s.last()));
        if s.last() == sep {
            assert(all.drop_last() == head);
            assert(joined(all, seq![sep]) == s.drop_last() + seq![sep] + Seq::<char>::empty());
        } else {
            assert(all.drop_last() == head.drop_last());
            assert forall|k: int| 0 <= k < all.len() implies !(#[trigger] all[k]).contains(sep) by {
                assert(!head[k].contains(sep));
                if k == all.len() - 1 {
                    assert forall|c: int| 0 <= c < all[k].len() implies all[k][c] != sep by {
                        if c < head[k].len() {
                            assert(head[k].contains(head[k][c]));
                        }
                    }
                }
            }
            if all.len() == 1 {
                assert(joined(all, seq![sep]) == head[0].push(s.last()));
            } else {
                assert(joined(head, seq![sep]) == joined(head.drop_last(), seq![sep]) + seq![sep]
                    + head.last());
                assert(joined(all, seq![sep]) == s.drop_last().push(s.last()));
            }
        }
    }
}

/// Law: a text without the separator is one piece, and a separator with a text
/// without it behind adds that text as a piece.
pub proof fn law_split_step(s: Seq<char>, t: Seq<char>, sep: char)
    requires
        !t.contains(sep),
    ensures
        split_on(t, sep) == seq![t],
        split_on(s + seq![sep] + t, sep) == split_on(s, sep).push(t),
        after_last(t, sep) == t,
        after_last(s + seq![sep] + t, sep) == t,
    decreases t.len(),
{
    let all = s + seq![sep] + t;
    if t.len() == 0 {
        assert(t == Seq::<char>::empty());
        assert(all.drop_last() == s);
        assert(all.last() == sep);
        assert(split_on(t, sep) == seq![t]);
    } else {
        let u = t.drop_last();
        assert forall|i: int| 0 <= i < u.len() implies u[i] != sep by {
            assert(t.contains(t[i]));
        }
        law_split_step(s, u, sep);
        assert(t.contains(t[t.len() - 1]));
        assert(all.drop_last() == s + seq![sep] + u);
        assert(u.push(t.last()) == t);
        assert(split_on(t, sep) == seq![t]);
        assert(split_on(all, sep) == split_on(s, sep).push(t));
    }
}

/// Law: what stands behind the first `c` is what follows a beginning without
/// `c` and that `c`; a text without `c` has nothing there.
pub proof fn law_behind_first(a: Seq<char>, b: Seq<char>, c: char)
    requires
        !a.contains(c),
    ensures
        behind_first(a + seq![c] + b, c) == Some(b),
        behind_first(a, c) is None,
    decreases a.len(),
{
    let all = a + seq![c] + b;
    if a.len() == 0 {
        assert(all.drop_first() == b);
    } else {
        let rest = a.drop_first();
        assert forall|i: int| 0 <= i < rest.len() implies rest[i] != c by {
            assert(a.contains(a[i + 1]));
        }
        law_behind_first(rest, b, c);
        assert(a.contains(a[0]));
        assert(all.drop_first() == rest + seq![c] + b);
    }
}

proof fn lemma_head_word(w: Seq<char>, rest: Seq<char>)
    requires
        forall|i: int| 0 <= i < w.len() ==> !is_white(#[trigger] w[i]),
        rest.len() == 0 || is_white(rest[0]),
    ensures
        head_word(w + rest) == w,
    decreases w.len(),
{
    let all = w + rest;
    if w.len() > 0 {
        assert(!is_white(w[0]));
        assert(all.drop_first() == w.drop_first() + rest);
        assert forall|i: int| 0 <= i < w.drop_first().len() implies !is_white(
            #[trigger] w.drop_first()[i],
        ) by {
            assert(!is_white(w[i + 1]));
        }
        lemma_head_word(w.drop_first(), rest);
        assert(seq![w[0]] + w.drop_first() == w);
    } else {
        assert(all == rest);
        assert(head_word(all) == w);
    }
}

/// A run of a class before a text that does not begin with any of it is
/// stripped whole.
pub proof fn lemma_strip_run(k: Class, run: Seq<char>, s: Seq<char>)
    requires
        forall|i: int| 0 <= i < run.len() ==> k.has(#[trigger] run[i]),
        s.len() == 0 || !k.has(s[0]),
    ensures
        strip_front(k, run + s) == s,
    decreases run.len(),
{
    let all = run + s;
    if run.len() > 0 {
        assert(k.has(run[0]));
        assert(all.drop_first() == run.drop_first() + s);
        assert forall|i: int| 0 <= i < run.drop_first().len() implies k.has(
            #[trigger] run.drop_first()[i],
        ) by {
            assert(k.has(run[i + 1]));
        }
        lemma_strip_run(k, run.drop_first(), s);
    } else {
        assert(all == s);
    }
}

/// A run of a class behind a text that does not end with any of it is
/// stripped whole.
pub proof fn lemma_strip_run_behind(k: Class, s: Seq<char>, run: Seq<char>)
    requires
        forall|i: int| 0 <= i < run.len() ==> k.has(#[trigger] run[i]),
        s.len() == 0 || !k.has(s.last()),
    ensures
        strip_back(k, s + run) == s,
    decreases run.len(),
{
    let all = s + run;
    if run.len() > 0 {
        assert(k.has(run[run.len() - 1]));
        assert(all.drop_last() == s + run.drop_last());
        assert forall|i: int| 0 <= i < run.drop_last().len() implies k.has(
            #[trigger] run.drop_last()[i],
        ) by {
            assert(k.has(run[i]));
        }
        lemma_strip_run_behind(k, s, run.drop_last());
    } else {
        assert(all == s);
    }
}

/// White space before a text that does not begin with any is stripped whole.
pub proof fn lemma_strip_blank(blank: Seq<char>, s: Seq<char>)
    requires
        forall|i: int| 0 <= i < blank.len() ==> is_white(#[trigger] blank[i]),
        s.len() == 0 || !is_white(s[0]),
    ensures
        strip_front(Class::White, blank + s) == s,
{
    assert forall|i: int| 0 <= i < blank.len() implies Class::White.has(#[trigger] blank[i]) by {
        assert(is_white(blank[i]));
    }
    lemma_strip_run(Class::White, blank, s);
}

/// White space behind a text that does not end with any is stripped whole.
pub proof fn lemma_strip_blank_behind(s: Seq<char>, blank: Seq<char>)
    requires
        forall|i: int| 0 <= i < blank.len() ==> is_white(#[trigger] blank[i]),
        s.len() == 0 || !is_white(s.last()),
    ensures
        strip_back(Class::White, s + blank) == s,
{
    assert forall|i: int| 0 <= i < blank.len() implies Class::White.has(#[trigger] blank[i]) by {
        assert(is_white(blank[i]));
    }
    lemma_strip_run_behind(Class::White, s, blank);
}

/// Law: the first word of a text is what stands, behind white space alone, up
/// to the next white space or the end.
pub proof fn law_first_word(blank: Seq<char>, w: Seq<char>, rest: Seq<char>)
    requires
        forall|i: int| 0 <= i < blank.len() ==> is_white(#[trigger] blank[i]),
        forall|i: int| 0 <= i < w.len() ==> !is_white(#[trigger] w[i]),
        w.len() > 0,
        rest.len() == 0 || is_white(rest[0]),
    ensures
        first_word(blank + w + rest) == w,
        first_word(blank) == Seq::<char>::empty(),
{
    assert(!is_white(w[0]));
    assert(blank + w + rest == blank + (w + rest));
    lemma_strip_blank(blank, w + rest);
    lemma_head_word(w, rest);
    assert(blank + Seq::<char>::empty() == blank);
    lemma_strip_blank(blank, Seq::empty());
}

/// Law: making letters small moves the capital letters `A` to `Z` to the small
/// ones, and leaves every other character alone.
pub proof fn law_lowered(s: Seq<char>)
    ensures
        lowered(s).len() == s.len(),
        forall|i: int|
            0 <= i < s.len() ==> (#[trigger] lowered(s)[i]) as u32 == if 'A' <= s[i] <= 'Z' {
                (s[i] as u32 + 32) as u32
            } else {
                s[i] as u32
            },
{
    assert forall|i: int| 0 <= i < s.len() implies (#[trigger] lowered(s)[i]) as u32 == if 'A' <= s[i]
        <= 'Z' {
        (s[i] as u32 + 32) as u32
    } else {
        s[i] as u32
    } by {
        if 'A' <= s[i] <= 'Z' {
            let u = (s[i] as u32 + 32) as u32;
            assert(97 <= u <= 122);
            assert((u as char) as u32 == u);
        }
    }
}

/// Law: a number below ten is one digit, and a digit more multiplies by ten.
pub proof fn law_decimal(n: nat, d: nat)
    requires
        d < 10,
    ensures
        decimal(d).len() == 1,
        decimal(d)[0] as u32 == 48 + d,
        n > 0 ==> decimal(10 * n + d) == decimal(n) + decimal(d),
{
    assert(((48 + d) as u32 as char) as u32 == (48 + d) as u32);
    if n > 0 {
        assert((10 * n + d) / 10 == n) by (nonlinear_arith)
            requires
                d < 10,
        ;
        assert((10 * n + d) % 10 == d) by (nonlinear_arith)
            requires
                d < 10,
        ;
        assert(decimal(10 * n + d) == decimal(n).push(digit(d)));
        assert(decimal(n).push(digit(d)) == decimal(n) + decimal(d));
    }
}

} // verus!
