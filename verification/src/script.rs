//! JSON text made safe to stand inside an HTML script element.
use vstd::prelude::*;
use vstd::string::*;
use crate::order::code;
use crate::text::chars_of;

verus! {

/// A character that makes a tag, a comment or the like of a `<` before it.
pub open spec fn opens_markup(c: char) -> bool {
    c == '/' || c == '!' || c == '?' || c == '=' || 'a' <= c <= 'z' || 'A' <= c <= 'Z'
}

/// `s` with each `<` that opens markup written as `\u003c`.
pub open spec fn script_safe(s: Seq<char>) -> Seq<char>
    decreases s.len(),
{
    if s.len() == 0 {
        Seq::empty()
    } else if s[0] == '<' && s.len() > 1 && opens_markup(s[1]) {
        "\\u003c"@ + script_safe(s.drop_first())
    } else {
        seq![s[0]] + script_safe(s.drop_first())
    }
}

/// The JSON text of a report, made safe to stand inside an HTML script
/// element: each `<` that opens markup is written as `\u003c`.
pub fn payload_json_for_html_script(json: &str) -> (r: String)
    ensures
        r@ == script_safe(json@),
{
    let chars: Vec<char> = chars_of(json);
    let n: usize = chars.len();
    let mut out: String = String::new();
    let mut i: usize = 0;
    assert(json@.skip(0) == json@);
    assert(out@ + script_safe(json@) == script_safe(json@));
    while i < n
        invariant
            i <= n == chars@.len(),
            chars@ == json@,
            script_safe(json@) == out@ + script_safe(json@.skip(i as int)),
        decreases n - i,
    {
        let c: char = chars[i];
        let ghost before = out@;
        proof {
            let s = json@.skip(i as int);
            assert(s[0] == c);
            assert(s.drop_first() == json@.skip(i as int + 1));
            if i + 1 < n {
                assert(s[1] == chars@[i as int + 1]);
            }
        }
        let tag_opener: bool = if i + 1 < n {
            let d: char = chars[i + 1];
            d == '/' || d == '!' || d == '?' || d == '=' || ('a' <= d && d <= 'z') || ('A' <= d
                && d <= 'Z')
        } else {
            false
        };
        if c == '<' && tag_opener {
            out.append("\\u003c");
            assert(before + ("\\u003c"@ + script_safe(json@.skip(i as int + 1))) == out@
                + script_safe(json@.skip(i as int + 1)));
        } else {
            out.push(c);
            assert(before + (seq![c] + script_safe(json@.skip(i as int + 1))) == out@ + script_safe(
                json@.skip(i as int + 1),
            ));
        }
        i += 1;
    }
    assert(json@.skip(i as int) == Seq::<char>::empty());
    assert(out@ + Seq::<char>::empty() == out@);
    out
}

// ---------------------------------------------------------------------
// Laws
// ---------------------------------------------------------------------

/// No `<` of `s` opens markup.
pub open spec fn markup_free(s: Seq<char>) -> bool {
    forall|i: int| 0 <= i && i + 1 < s.len() && #[trigger] s[i] == '<' ==> !opens_markup(s[i + 1])
}

proof fn lemma_safe_head(s: Seq<char>)
    requires
        s.len() > 0,
    ensures
        script_safe(s).len() > 0,
        script_safe(s)[0] == s[0] || (s[0] == '<' && script_safe(s)[0] == '\\'),
{
    reveal_strlit("\\u003c");
}

/// Law: in the text made safe no `<` opens markup: no tag, closing tag,
/// comment or declaration begins in it.
pub proof fn law_no_markup(s: Seq<char>)
    ensures
        markup_free(script_safe(s)),
    decreases s.len(),
{
    reveal_strlit("\\u003c");
    if s.len() > 0 {
        let rest = s.drop_first();
        law_no_markup(rest);
        let tail = script_safe(rest);
        let all = script_safe(s);
        if rest.len() > 0 {
            lemma_safe_head(rest);
        }
        let head = if s[0] == '<' && s.len() > 1 && opens_markup(s[1]) {
            "\\u003c"@
        } else {
            seq![s[0]]
        };
        assert(all == head + tail);
        assert forall|i: int| 0 <= i && i + 1 < all.len() && #[trigger] all[i] == '<' implies !opens_markup(
            all[i + 1],
        ) by {
            if i >= head.len() {
                assert(tail[i - head.len()] == '<');
                assert(all[i + 1] == tail[i - head.len() + 1]);
            } else {
                assert(head[i] == '<');
                assert(head.len() == 1);
                assert(all[1] == tail[0]);
                assert(rest[0] == s[1]);
            }
        }
    }
}

/// The value of a hexadecimal digit.
pub open spec fn hex_value(c: char) -> Option<int> {
    if '0' <= c <= '9' {
        Some(code(c) - 48)
    } else if 'a' <= c <= 'f' {
        Some(code(c) - 87)
    } else if 'A' <= c <= 'F' {
        Some(code(c) - 55)
    } else {
        None
    }
}

/// What the character behind a backslash stands for, in a JSON string.
pub open spec fn short_escape(c: char) -> Option<int> {
    if c == '"' || c == '\\' || c == '/' {
        Some(code(c) as int)
    } else if c == 'b' {
        Some(8int)
    } else if c == 'f' {
        Some(12int)
    } else if c == 'n' {
        Some(10int)
    } else if c == 'r' {
        Some(13int)
    } else if c == 't' {
        Some(9int)
    } else {
        None
    }
}

/// The code unit that four hexadecimal digits at `i` stand for.
pub open spec fn hex_unit(s: Seq<char>, i: int) -> Option<int> {
    if i + 4 <= s.len() {
        match (hex_value(s[i]), hex_value(s[i + 1]), hex_value(s[i + 2]), hex_value(s[i + 3])) {
            (Some(a), Some(b), Some(c), Some(d)) => Some(4096 * a + 256 * b + 16 * c + d),
            _ => None,
        }
    } else {
        None
    }
}

/// A sign of JSON text: one that stands outside strings, the beginning or the
/// end of a string, or a unit of a string's content.
pub enum JsonSign {
    Outer(char),
    Begin,
    End,
    Unit(int),
}

/// `sign` in front of the signs in `rest`.
pub open spec fn after_sign(sign: JsonSign, rest: Option<Seq<JsonSign>>) -> Option<Seq<JsonSign>> {
    match rest {
        Some(r) => Some(seq![sign] + r),
        None => None,
    }
}

/// The unit that the content of a string begins with, and how many characters
/// it is written with: a character stands for its code point, an escape for
/// what it names. `None` where an escape is malformed.
pub open spec fn first_unit(s: Seq<char>) -> Option<(int, int)> {
    if s[0] != '\\' {
        Some((code(s[0]) as int, 1))
    } else if s.len() >= 6 && s[1] == 'u' {
        match hex_unit(s, 2) {
            Some(unit) => Some((unit, 6)),
            None => None,
        }
    } else if s.len() >= 2 && s[1] != 'u' {
        match short_escape(s[1]) {
            Some(unit) => Some((unit, 2)),
            None => None,
        }
    } else {
        None
    }
}

/// The signs of JSON text, read from inside a string or from outside: strings
/// apart from what stands around them, their escapes resolved. `None` where
/// an escape is malformed, a string does not end, or a backslash or a `<`
/// stands outside strings, where JSON has no place for it.
pub open spec fn json_reads(s: Seq<char>, inside: bool) -> Option<Seq<JsonSign>>
    decreases s.len(),
{
    if s.len() == 0 {
        if inside {
            None
        } else {
            Some(Seq::empty())
        }
    } else if s[0] == '"' {
        after_sign(
            if inside {
                JsonSign::End
            } else {
                JsonSign::Begin
            },
            json_reads(s.drop_first(), !inside),
        )
    } else if !inside {
        if s[0] == '\\' || s[0] == '<' {
            None
        } else {
            after_sign(JsonSign::Outer(s[0]), json_reads(s.drop_first(), false))
        }
    } else {
        match first_unit(s) {
            Some((unit, n)) => if 0 < n <= s.len() {
                after_sign(JsonSign::Unit(unit), json_reads(s.skip(n), true))
            } else {
                None
            },
            None => None,
        }
    }
}

proof fn lemma_safe_keeps(s: Seq<char>, n: int)
    requires
        0 <= n <= s.len(),
        forall|i: int| 0 <= i < n ==> #[trigger] s[i] != '<',
    ensures
        script_safe(s) == s.take(n) + script_safe(s.skip(n)),
    decreases n,
{
    if n == 0 {
        assert(s.skip(0) == s);
        assert(s.take(0) + script_safe(s) == script_safe(s));
    } else {
        let rest = s.drop_first();
        assert forall|i: int| 0 <= i < n - 1 implies #[trigger] rest[i] != '<' by {
            assert(rest[i] == s[i + 1]);
        }
        lemma_safe_keeps(rest, n - 1);
        assert(s[0] != '<');
        assert(rest.skip(n - 1) == s.skip(n));
        assert(seq![s[0]] + (rest.take(n - 1) + script_safe(s.skip(n))) == s.take(n) + script_safe(
            s.skip(n),
        ));
    }
}

proof fn lemma_reads_the_same(s: Seq<char>, inside: bool)
    requires
        json_reads(s, inside) is Some,
    ensures
        json_reads(script_safe(s), inside) == json_reads(s, inside),
    decreases s.len(),
{
    reveal_strlit("\\u003c");
    if s.len() > 0 {
        let all = script_safe(s);
        let rest = s.drop_first();
        if s[0] == '"' {
            lemma_reads_the_same(rest, !inside);
            assert(all == seq![s[0]] + script_safe(rest));
            assert(all.drop_first() == script_safe(rest));
        } else if !inside {
            lemma_reads_the_same(rest, false);
            assert(all == seq![s[0]] + script_safe(rest));
            assert(all.drop_first() == script_safe(rest));
        } else {
            let (unit, n) = first_unit(s)->0;
            lemma_reads_the_same(s.skip(n), true);
            let tail = script_safe(s.skip(n));
            assert(s.skip(1) == rest);
            if s[0] == '<' && s.len() > 1 && opens_markup(s[1]) {
                assert(all == "\\u003c"@ + tail);
                assert(all[0] == '\\' && all[1] == 'u' && all[2] == '0' && all[3] == '0' && all[4]
                    == '3' && all[5] == 'c');
                assert(hex_unit(all, 2) == Some(0x3cint));
                assert(code('<') == 0x3c);
                assert(first_unit(all) == Some((unit, 6int)));
                assert(all.skip(6) == tail);
            } else if s[0] != '\\' {
                assert(all == seq![s[0]] + tail);
                assert(first_unit(all) == Some((unit, 1int)));
                assert(all.skip(1) == tail);
            } else {
                assert forall|i: int| 0 <= i < n implies #[trigger] s[i] != '<' by {
                    if n == 6 {
                        assert(hex_value(s[2]) is Some && hex_value(s[3]) is Some && hex_value(s[4])
                            is Some && hex_value(s[5]) is Some);
                    }
                }
                lemma_safe_keeps(s, n);
                assert forall|i: int| 0 <= i < n implies #[trigger] all[i] == s[i] by {}
                assert(first_unit(all) == Some((unit, n))) by {
                    if n == 6 {
                        assert(hex_unit(all, 2) == hex_unit(s, 2));
                    }
                }
                assert(all.skip(n) == tail);
            }
        }
    }
}

/// Law: well-formed JSON text made safe reads as it did before, sign by sign:
/// the same text around the same strings with the same content.
pub proof fn law_reads_the_same(s: Seq<char>)
    requires
        json_reads(s, false) is Some,
    ensures
        json_reads(script_safe(s), false) == json_reads(s, false),
{
    lemma_reads_the_same(s, false);
}

/// Law: a `<` before a slash, an exclamation mark, a question mark, an equals
/// sign or a letter is written as an escape; every other character, a `<`
/// before anything else or at the end among them, is left as it is.
pub proof fn law_script_step(c: char, s: Seq<char>)
    ensures
        script_safe(Seq::empty()) == Seq::<char>::empty(),
        c == '<' && s.len() > 0 && (s[0] == '/' || s[0] == '!' || s[0] == '?' || s[0] == '=' || 'a'
            <= s[0] <= 'z' || 'A' <= s[0] <= 'Z') ==> script_safe(seq![c] + s) == "\\u003c"@
            + script_safe(s),
        c != '<' || s.len() == 0 || !(s[0] == '/' || s[0] == '!' || s[0] == '?' || s[0] == '='
            || 'a' <= s[0] <= 'z' || 'A' <= s[0] <= 'Z') ==> script_safe(seq![c] + s) == seq![c]
            + script_safe(s),
{
    let all = seq![c] + s;
    assert(all.drop_first() == s);
    if s.len() > 0 {
        assert(all[1] == s[0]);
    }
}

} // verus!
