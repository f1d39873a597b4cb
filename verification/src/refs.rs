//! Reading `ref('…')` and `source('…', '…')`, and the identifiers of source
//! tables.
use vstd::prelude::*;
use vstd::string::*;
use crate::domain::{
    first_index, lemma_first_index_is, lemma_first_index_none, SourceNode, UnitTest, UnitTestGiven,
};
use crate::text::{
    after_last, chars_of, is_white, last_piece, lemma_split_some, lemma_strip_blank,
    lemma_strip_blank_behind, lemma_strip_run, lemma_strip_run_behind, lowered, opt_str, opt_text,
    same_ignoring_case, split_on, strip_back, strip_end, strip_front, strip_start, trim, trimmed,
    Class,
};

verus! {

// ---------------------------------------------------------------------
// Quotes and calls
// ---------------------------------------------------------------------

/// `s` begins and ends with the quote `q`, two different characters of it.
pub open spec fn in_quotes(s: Seq<char>, q: char) -> bool {
    s.len() >= 2 && s[0] == q && s.last() == q
}

/// What stands between matching single or double quotes.
pub open spec fn unquoted(s: Seq<char>) -> Option<Seq<char>> {
    if in_quotes(s, '\'') || in_quotes(s, '"') {
        Some(s.subrange(1, s.len() - 1))
    } else {
        None
    }
}

/// What stands between matching single or double quotes; `None` where `s` is
/// not in such quotes.
pub fn strip_matching_quotes<'a>(s: &'a str) -> (r: Option<&'a str>)
    ensures
        opt_str(r) == unquoted(s@),
{
    let v: Vec<char> = chars_of(s);
    let n: usize = v.len();
    if n >= 2 && ((v[0] == '\'' && v[n - 1] == '\'') || (v[0] == '"' && v[n - 1] == '"')) {
        Some(s.substring_char(1, n - 1))
    } else {
        None
    }
}

/// What stands between the parentheses of a call of `keyword`, in any ASCII
/// case, that is all of `s` up to white space.
pub open spec fn call_inside(s: Seq<char>, keyword: Seq<char>) -> Option<Seq<char>> {
    let t = trimmed(s);
    let k = keyword.len() as int;
    if t.len() >= k && lowered(t.take(k)) == lowered(keyword) {
        let rest = strip_front(Class::White, t.skip(k));
        if rest.len() >= 2 && rest[0] == '(' && rest.last() == ')' {
            Some(rest.subrange(1, rest.len() - 1))
        } else {
            None
        }
    } else {
        None
    }
}

/// What stands between the parentheses of a call of `keyword`.
fn inside_call<'a>(s: &'a str, keyword: &str) -> (r: Option<&'a str>)
    ensures
        opt_str(r) == call_inside(s@, keyword@),
{
    let t: &'a str = trim(s);
    let n: usize = t.unicode_len();
    let k: usize = keyword.unicode_len();
    if n < k {
        return None;
    }
    let head: &'a str = t.substring_char(0, k);
    assert(head@ == t@.take(k as int));
    if !same_ignoring_case(head, keyword) {
        return None;
    }
    let tail: &'a str = t.substring_char(k, n);
    assert(tail@ == t@.skip(k as int));
    let rest: &'a str = strip_start(Class::White, tail);
    let m: usize = rest.unicode_len();
    if m >= 2 && rest.get_char(0) == '(' && rest.get_char(m - 1) == ')' {
        Some(rest.substring_char(1, m - 1))
    } else {
        None
    }
}

// ---------------------------------------------------------------------
// ref and source
// ---------------------------------------------------------------------

/// The name in a `ref` call.
pub open spec fn ref_target(input: Seq<char>) -> Option<Seq<char>> {
    match call_inside(input, "ref"@) {
        Some(inside) => match unquoted(trimmed(inside)) {
            Some(name) => if name.len() > 0 {
                Some(name)
            } else {
                None
            },
            None => None,
        },
        None => None,
    }
}

/// The name in `ref('name')` or `ref("name")`. White space around the parts
/// and the case of `ref` do not matter. `None` for anything else, such as an
/// empty name or quotes that do not match.
pub fn parse_ref_name<'a>(input: &'a str) -> (r: Option<&'a str>)
    ensures
        opt_str(r) == ref_target(input@),
{
    let inside: &'a str = match inside_call(input, "ref") {
        Some(inside) => inside,
        None => {
            return None;
        },
    };
    match strip_matching_quotes(trim(inside)) {
        Some(name) => if name.is_empty() {
            None
        } else {
            Some(name)
        },
        None => None,
    }
}

/// The two names in a `source` call.
pub open spec fn source_target(input: Seq<char>) -> Option<(Seq<char>, Seq<char>)> {
    match call_inside(input, "source"@) {
        Some(inside) => {
            let parts = split_on(inside, ',');
            if parts.len() == 2 {
                match (unquoted(trimmed(parts[0])), unquoted(trimmed(parts[1]))) {
                    (Some(source), Some(table)) => if source.len() > 0 && table.len() > 0 {
                        Some((source, table))
                    } else {
                        None
                    },
                    _ => None,
                }
            } else {
                None
            }
        },
        None => None,
    }
}

/// The two parts of `s` around `sep`; `None` where `sep` does not stand in
/// `s` exactly once.
fn split_pair<'a>(s: &'a str, sep: char) -> (r: Option<(&'a str, &'a str)>)
    ensures
        match r {
            Some((a, b)) => split_on(s@, sep) == seq![a@, b@],
            None => split_on(s@, sep).len() != 2,
        },
{
    let v: Vec<char> = chars_of(s);
    let n: usize = v.len();
    let mut at: Option<usize> = None;
    let mut i: usize = 0;
    let mut many: bool = false;
    assert(s@.take(0) == Seq::<char>::empty());
    while i < n
        invariant
            i <= n == v@.len(),
            v@ == s@,
            at matches Some(k) ==> k < i,
            many ==> split_on(s@.take(i as int), sep).len() > 2,
            !many ==> split_on(s@.take(i as int), sep) == match at {
                Some(k) => seq![s@.take(k as int), s@.subrange(k + 1, i as int)],
                None => seq![s@.take(i as int)],
            },
        decreases n - i,
    {
        proof {
            lemma_split_some(s@.take(i as int), sep);
            assert(s@.take(i as int + 1).drop_last() == s@.take(i as int));
            assert(s@.take(i as int + 1).last() == v@[i as int]);
        }
        if v[i] == sep {
            match at {
                Some(_) => {
                    many = true;
                },
                None => {
                    at = Some(i);
                    assert(s@.subrange(i + 1, i + 1) == Seq::<char>::empty());
                },
            }
        } else {
            proof {
                match at {
                    Some(k) => {
                        assert(s@.subrange(k + 1, i as int).push(v@[i as int]) == s@.subrange(
                            k + 1,
                            i + 1,
                        ));
                    },
                    None => {
                        assert(s@.take(i as int).push(v@[i as int]) == s@.take(i as int + 1));
                    },
                }
            }
        }
        i += 1;
        proof {
            if !many {
                assert(split_on(s@.take(i as int), sep) =~= match at {
                    Some(k) => seq![s@.take(k as int), s@.subrange(k + 1, i as int)],
                    None => seq![s@.take(i as int)],
                });
            }
        }
    }
    assert(s@.take(n as int) == s@);
    if many {
        return None;
    }
    match at {
        Some(k) => {
            let a: &'a str = s.substring_char(0, k);
            let b: &'a str = s.substring_char(k + 1, n);
            assert(a@ == s@.take(k as int));
            Some((a, b))
        },
        None => None,
    }
}

/// The two names in `source('a', 'b')`, each in single or in double quotes.
/// White space around the parts and the case of `source` do not matter.
/// `None` for anything else, such as another number of arguments.
pub fn parse_source_ref<'a>(input: &'a str) -> (r: Option<(&'a str, &'a str)>)
    ensures
        match r {
            Some((a, b)) => source_target(input@) == Some((a@, b@)),
            None => source_target(input@) is None,
        },
{
    let inside: &'a str = match inside_call(input, "source") {
        Some(inside) => inside,
        None => {
            return None;
        },
    };
    let (first, second) = match split_pair(inside, ',') {
        Some(pair) => pair,
        None => {
            return None;
        },
    };
    let source_name: Option<&'a str> = strip_matching_quotes(trim(first));
    let table_name: Option<&'a str> = strip_matching_quotes(trim(second));
    match (source_name, table_name) {
        (Some(source), Some(table)) => if source.is_empty() || table.is_empty() {
            None
        } else {
            Some((source, table))
        },
        _ => None,
    }
}

/// Law: no input is both a `ref` and a `source`.
pub proof fn law_ref_is_not_source(input: Seq<char>)
    ensures
        ref_target(input) is None || source_target(input) is None,
{
    reveal_strlit("ref");
    reveal_strlit("source");
    let t = trimmed(input);
    if ref_target(input) is Some && source_target(input) is Some {
        assert(lowered(t.take(3))[0] == lowered("ref"@)[0]);
        assert(lowered(t.take(6))[0] == lowered("source"@)[0]);
        assert(t.take(3)[0] == t.take(6)[0]);
    }
}

/// Stripping leaves a text alone whose ends are not of the class.
proof fn lemma_trim_solid(s: Seq<char>)
    requires
        s.len() > 0,
        !is_white(s[0]),
        !is_white(s.last()),
    ensures
        trimmed(s) == s,
        strip_front(Class::White, s) == s,
{
}

/// A text without the separator is a single piece.
proof fn lemma_split_single(s: Seq<char>, sep: char)
    requires
        !s.contains(sep),
    ensures
        split_on(s, sep) == seq![s],
    decreases s.len(),
{
    if s.len() > 0 {
        assert forall|i: int| 0 <= i < s.drop_last().len() implies s.drop_last()[i] != sep by {
            assert(s[i] != sep);
        }
        lemma_split_single(s.drop_last(), sep);
        assert(s[s.len() - 1] != sep);
        assert(s.drop_last().push(s.last()) == s);
        assert(split_on(s, sep) == seq![s]);
    } else {
        assert(s == Seq::<char>::empty());
    }
}

/// Two texts without the separator, put together around it, are two pieces.
proof fn lemma_split_two(a: Seq<char>, b: Seq<char>, sep: char)
    requires
        !a.contains(sep),
        !b.contains(sep),
    ensures
        split_on(a + seq![sep] + b, sep) == seq![a, b],
    decreases b.len(),
{
    let s = a + seq![sep] + b;
    if b.len() == 0 {
        assert(s.drop_last() == a);
        lemma_split_single(a, sep);
        assert(b == Seq::<char>::empty());
        assert(split_on(s, sep) == seq![a, b]);
    } else {
        assert forall|i: int| 0 <= i < b.drop_last().len() implies b.drop_last()[i] != sep by {
            assert(b[i] != sep);
        }
        lemma_split_two(a, b.drop_last(), sep);
        assert(s.drop_last() == a + seq![sep] + b.drop_last());
        assert(b[b.len() - 1] != sep);
        assert(b.drop_last().push(b.last()) == b);
        assert(split_on(s, sep) == seq![a, b]);
    }
}

/// A name in quotes is read back from them.
proof fn lemma_quoted(name: Seq<char>, q: char)
    requires
        q == '\'' || q == '"',
    ensures
        trimmed(seq![q] + name + seq![q]) == seq![q] + name + seq![q],
        unquoted(seq![q] + name + seq![q]) == Some(name),
{
    let s = seq![q] + name + seq![q];
    lemma_trim_solid(s);
    assert(s.subrange(1, s.len() - 1) == name);
}

/// A call, written without white space, is read back.
proof fn lemma_call(keyword: Seq<char>, inside: Seq<char>)
    requires
        keyword.len() > 0,
        !is_white(keyword[0]),
    ensures
        call_inside(keyword + seq!['('] + inside + seq![')'], keyword) == Some(inside),
{
    let k = keyword.len() as int;
    let s = keyword + seq!['('] + inside + seq![')'];
    assert(s.last() == ')');
    lemma_trim_solid(s);
    assert(s.take(k) == keyword);
    let rest = s.skip(k);
    assert(rest == seq!['('] + inside + seq![')']);
    lemma_trim_solid(rest);
    assert(rest.subrange(1, rest.len() - 1) == inside);
}

/// Law: every name but the empty one is read back from a `ref` call that
/// holds it, in either kind of quotes.
pub proof fn law_ref_reads_back(name: Seq<char>, q: char)
    requires
        name.len() > 0,
        q == '\'' || q == '"',
    ensures
        ref_target("ref("@ + (seq![q] + name + seq![q]) + ")"@) == Some(name),
{
    reveal_strlit("ref");
    reveal_strlit("ref(");
    reveal_strlit(")");
    let quoted = seq![q] + name + seq![q];
    assert("ref("@ + quoted + ")"@ == "ref"@ + seq!['('] + quoted + seq![')']);
    lemma_call("ref"@, quoted);
    lemma_quoted(name, q);
}

/// Law: every two names that are not empty and hold no comma are read back
/// from a `source` call that holds them, each in either kind of quotes.
pub proof fn law_source_reads_back(source: Seq<char>, table: Seq<char>, q: char, r: char)
    requires
        source.len() > 0,
        table.len() > 0,
        !source.contains(','),
        !table.contains(','),
        q == '\'' || q == '"',
        r == '\'' || r == '"',
    ensures
        source_target(
            "source("@ + (seq![q] + source + seq![q]) + ","@ + (seq![r] + table + seq![r]) + ")"@,
        ) == Some((source, table)),
{
    reveal_strlit("source");
    reveal_strlit("source(");
    reveal_strlit(",");
    reveal_strlit(")");
    let a = seq![q] + source + seq![q];
    let b = seq![r] + table + seq![r];
    let inside = a + seq![','] + b;
    assert("source("@ + a + ","@ + b + ")"@ == "source"@ + seq!['('] + inside + seq![')']);
    lemma_call("source"@, inside);
    assert forall|i: int| 0 <= i < a.len() implies a[i] != ',' by {
        if 0 < i < a.len() - 1 {
            assert(a[i] == source[i - 1]);
        }
    }
    assert forall|i: int| 0 <= i < b.len() implies b[i] != ',' by {
        if 0 < i < b.len() - 1 {
            assert(b[i] == table[i - 1]);
        }
    }
    lemma_split_two(a, b, ',');
    lemma_quoted(source, q);
    lemma_quoted(table, r);
}

/// The position of the first given whose `ref` names `cte_name`, in any ASCII
/// case.
pub open spec fn given_index(unit_test: UnitTest, cte_name: Seq<char>) -> Option<int> {
    first_index(
        unit_test.given@,
        |g: UnitTestGiven|
            match ref_target(g.input@) {
                Some(n) => lowered(n) == lowered(cte_name),
                None => false,
            },
    )
}

/// The first given of `unit_test` whose `ref` names `cte_name`, in any ASCII
/// case.
pub fn bind_import_to_given<'t>(unit_test: &'t UnitTest, cte_name: &str) -> (r: Option<
    &'t UnitTestGiven,
>)
    ensures
        match r {
            Some(g) => given_index(*unit_test, cte_name@) is Some && *g
                == unit_test.given@[given_index(*unit_test, cte_name@)->0],
            None => given_index(*unit_test, cte_name@) is None,
        },
{
    let ghost p = |g: UnitTestGiven|
        match ref_target(g.input@) {
            Some(n) => lowered(n) == lowered(cte_name@),
            None => false,
        };
    let mut i: usize = 0;
    while i < unit_test.given.len()
        invariant
            i <= unit_test.given@.len(),
            p == (|g: UnitTestGiven|
                match ref_target(g.input@) {
                    Some(n) => lowered(n) == lowered(cte_name@),
                    None => false,
                }),
            forall|j: int| 0 <= j < i ==> !p(#[trigger] unit_test.given@[j]),
        decreases unit_test.given@.len() - i,
    {
        let given: &'t UnitTestGiven = &unit_test.given[i];
        if let Some(name) = parse_ref_name(given.input.as_str()) {
            if same_ignoring_case(name, cte_name) {
                proof {
                    assert(p(unit_test.given@[i as int]));
                    lemma_first_index_is(unit_test.given@, p, i as int);
                }
                return Some(given);
            }
        }
        i += 1;
    }
    proof {
        lemma_first_index_none(unit_test.given@, p);
    }
    None
}

// ---------------------------------------------------------------------
// Identifiers of source tables
// ---------------------------------------------------------------------

/// An identifier without the quotes or brackets of a SQL dialect.
pub open spec fn bare_ident(s: Seq<char>) -> Seq<char> {
    let q = Class::Either('"', '`');
    strip_back(
        Class::Is(']'),
        strip_front(Class::Is('['), strip_back(q, strip_front(q, trimmed(s)))),
    )
}

/// An identifier without white space, double quotes, backticks or square
/// brackets around it.
pub fn strip_ident_quotes(s: &str) -> (r: &str)
    ensures
        r@ == bare_ident(s@),
{
    let t: &str = strip_end(Class::Either('"', '`'), strip_start(Class::Either('"', '`'), trim(s)));
    strip_end(Class::Is(']'), strip_start(Class::Is('['), t))
}

/// `s` without dialect quotes, where that leaves anything.
pub open spec fn solid_ident(s: Option<Seq<char>>) -> Option<Seq<char>> {
    match s {
        Some(t) => if bare_ident(t).len() > 0 {
            Some(bare_ident(t))
        } else {
            None
        },
        None => None,
    }
}

/// The last part of a relation name.
pub open spec fn relation_leaf(relation: Option<String>) -> Option<Seq<char>> {
    match relation {
        Some(r) => Some(after_last(r@, '.')),
        None => None,
    }
}

/// The table name that a source has in compiled SQL: its identifier, else the
/// last part of its relation name, else its name; the first that is not
/// empty, without dialect quotes.
pub open spec fn relation_token(source: SourceNode) -> Seq<char> {
    match solid_ident(opt_text(source.identifier)) {
        Some(t) => t,
        None => match solid_ident(relation_leaf(source.relation_name)) {
            Some(t) => t,
            None => bare_ident(source.name@),
        },
    }
}

/// The table name that a source has in compiled SQL.
pub fn source_relation_token(source: &SourceNode) -> (r: &str)
    ensures
        r@ == relation_token(*source),
{
    if let Some(identifier) = &source.identifier {
        let t: &str = strip_ident_quotes(identifier.as_str());
        if !t.is_empty() {
            return t;
        }
    }
    if let Some(relation) = &source.relation_name {
        let t: &str = strip_ident_quotes(last_piece(relation.as_str(), '.'));
        if !t.is_empty() {
            return t;
        }
    }
    strip_ident_quotes(source.name.as_str())
}

// ---------------------------------------------------------------------
// Laws on calls, quotes and identifiers
// ---------------------------------------------------------------------

/// Law: what is in quotes is what stands between one quote of either kind and
/// the same quote; nothing else is in quotes.
pub proof fn law_unquoted(s: Seq<char>, x: Seq<char>)
    ensures
        unquoted(s) == Some(x) <==> s == seq!['\''] + x + seq!['\''] || s == seq!['"'] + x
            + seq!['"'],
        unquoted(s) is None ==> s != seq!['\''] + x + seq!['\''] && s != seq!['"'] + x + seq!['"'],
{
    let a = seq!['\''] + x + seq!['\''];
    let b = seq!['"'] + x + seq!['"'];
    assert(a.subrange(1, a.len() - 1) == x);
    assert(b.subrange(1, b.len() - 1) == x);
    assert(a[0] == '\'' && a.last() == '\'' && b[0] == '"' && b.last() == '"');
    if unquoted(s) == Some(x) {
        if in_quotes(s, '\'') {
            assert(s =~= a);
        } else {
            assert(s =~= b);
        }
    }
}

/// Law: a call is the keyword in any case and the parentheses with what stands
/// between them, white space around and between them aside.
pub proof fn law_call(
    blank: Seq<char>,
    word: Seq<char>,
    space: Seq<char>,
    inside: Seq<char>,
    end: Seq<char>,
    keyword: Seq<char>,
)
    requires
        forall|i: int| 0 <= i < blank.len() ==> is_white(#[trigger] blank[i]),
        forall|i: int| 0 <= i < space.len() ==> is_white(#[trigger] space[i]),
        forall|i: int| 0 <= i < end.len() ==> is_white(#[trigger] end[i]),
        word.len() > 0,
        !is_white(word[0]),
        lowered(word) == lowered(keyword),
    ensures
        call_inside(blank + word + space + seq!['('] + inside + seq![')'] + end, keyword) == Some(
            inside,
        ),
{
    let core = word + space + seq!['('] + inside + seq![')'];
    let all = blank + word + space + seq!['('] + inside + seq![')'] + end;
    assert(all == blank + (core + end));
    assert(core[0] == word[0]);
    assert(core.last() == ')');
    lemma_strip_blank(blank, core + end);
    lemma_strip_blank_behind(core, end);
    assert(trimmed(all) == core);
    assert(lowered(word).len() == word.len() && lowered(keyword).len() == keyword.len());
    let k = keyword.len() as int;
    assert(core.take(k) == word);
    let rest = seq!['('] + inside + seq![')'];
    assert(core.skip(k) == space + rest);
    lemma_strip_blank(space, rest);
    assert(rest.subrange(1, rest.len() - 1) == inside);
}

/// Law: only a text that, white space aside, begins with the keyword in some
/// case, goes on with an opening parenthesis and ends with a closing one is a
/// call.
pub proof fn law_no_call(s: Seq<char>, keyword: Seq<char>)
    ensures
        call_inside(s, keyword) matches Some(inside) ==> {
            let t = trimmed(s);
            let k = keyword.len() as int;
            let rest = strip_front(Class::White, t.skip(k));
            &&& t.len() >= k
            &&& lowered(t.take(k)) == lowered(keyword)
            &&& rest == seq!['('] + inside + seq![')']
        },
{
    if let Some(inside) = call_inside(s, keyword) {
        let rest = strip_front(Class::White, trimmed(s).skip(keyword.len() as int));
        assert(rest =~= seq!['('] + inside + seq![')']);
    }
}

/// Law: a `ref` names what stands in quotes in its parentheses, white space
/// aside, unless that is empty; anything else names nothing.
pub proof fn law_ref_target(input: Seq<char>, inside: Seq<char>, name: Seq<char>)
    ensures
        call_inside(input, "ref"@) is None ==> ref_target(input) is None,
        call_inside(input, "ref"@) == Some(inside) ==> (ref_target(input) == Some(name)
            <==> name.len() > 0 && unquoted(trimmed(inside)) == Some(name)),
{
}

/// Law: a `source` names the two texts in quotes that stand in its parentheses
/// with one comma between, white space aside, unless one is empty; with any
/// other number of commas, or without quotes, it names nothing.
pub proof fn law_source_target(
    input: Seq<char>,
    inside: Seq<char>,
    a: Seq<char>,
    b: Seq<char>,
    source: Seq<char>,
    table: Seq<char>,
)
    requires
        !a.contains(','),
        !b.contains(','),
    ensures
        call_inside(input, "source"@) is None ==> source_target(input) is None,
        call_inside(input, "source"@) == Some(inside) && split_on(inside, ',').len() != 2
            ==> source_target(input) is None,
        call_inside(input, "source"@) == Some(a + seq![','] + b) ==> (source_target(input) == Some(
            (source, table),
        ) <==> source.len() > 0 && table.len() > 0 && unquoted(trimmed(a)) == Some(source)
            && unquoted(trimmed(b)) == Some(table)),
{
    lemma_split_two(a, b, ',');
}

/// Law: a test's given for a name is the first whose `ref` names it, in any
/// case.
pub proof fn law_given_index(t: UnitTest, name: Seq<char>, i: int)
    requires
        0 <= i < t.given@.len(),
    ensures
        ({
            let names = |g: UnitTestGiven|
                ref_target(g.input@) is Some && lowered(ref_target(g.input@)->0) == lowered(name);
            &&& names(t.given@[i]) && (forall|j: int| 0 <= j < i ==> !names(#[trigger] t.given@[j]))
                ==> given_index(t, name) == Some(i)
            &&& given_index(t, name) is None ==> !names(t.given@[i])
        }),
{
    let names = |g: UnitTestGiven|
        ref_target(g.input@) is Some && lowered(ref_target(g.input@)->0) == lowered(name);
    let p = |g: UnitTestGiven|
        match ref_target(g.input@) {
            Some(n) => lowered(n) == lowered(name),
            None => false,
        };
    assert(names =~= p);
    crate::domain::law_first_index(t.given@, p, i);
}

/// Law: an identifier loses white space around it, then double quotes and
/// backticks around it, then square brackets around it; one without any of
/// them at its ends is left alone.
pub proof fn law_bare_ident(
    blank: Seq<char>,
    quotes: Seq<char>,
    open: Seq<char>,
    x: Seq<char>,
    close: Seq<char>,
    unquotes: Seq<char>,
    end: Seq<char>,
)
    requires
        forall|i: int| 0 <= i < blank.len() ==> is_white(#[trigger] blank[i]),
        forall|i: int| 0 <= i < end.len() ==> is_white(#[trigger] end[i]),
        forall|i: int| 0 <= i < quotes.len() ==> #[trigger] quotes[i] == '"' || quotes[i] == '`',
        forall|i: int|
            0 <= i < unquotes.len() ==> #[trigger] unquotes[i] == '"' || unquotes[i] == '`',
        forall|i: int| 0 <= i < open.len() ==> #[trigger] open[i] == '[',
        forall|i: int| 0 <= i < close.len() ==> #[trigger] close[i] == ']',
        x.len() > 0,
        !is_white(x[0]) && !is_white(x.last()),
        x[0] != '"' && x[0] != '`' && x[0] != '[',
        x.last() != '"' && x.last() != '`' && x.last() != ']',
    ensures
        bare_ident(blank + quotes + open + x + close + unquotes + end) == x,
{
    let quote = Class::Either('"', '`');
    let inner = open + x + close;
    let solid = quotes + inner + unquotes;
    assert(blank + quotes + open + x + close + unquotes + end =~= blank + (solid + end));
    assert(inner[0] == if open.len() > 0 {
        open[0]
    } else {
        x[0]
    });
    assert(inner.last() == if close.len() > 0 {
        close.last()
    } else {
        x.last()
    });
    assert(solid[0] == if quotes.len() > 0 {
        quotes[0]
    } else {
        inner[0]
    });
    assert(solid.last() == if unquotes.len() > 0 {
        unquotes.last()
    } else {
        inner.last()
    });
    lemma_strip_blank(blank, solid + end);
    lemma_strip_blank_behind(solid, end);
    assert(trimmed(blank + (solid + end)) == solid);
    assert(solid == quotes + (inner + unquotes));
    assert forall|i: int| 0 <= i < quotes.len() implies quote.has(#[trigger] quotes[i]) by {}
    assert forall|i: int| 0 <= i < unquotes.len() implies quote.has(#[trigger] unquotes[i]) by {}
    lemma_strip_run(quote, quotes, inner + unquotes);
    lemma_strip_run_behind(quote, inner, unquotes);
    assert(inner == open + (x + close));
    lemma_strip_run(Class::Is('['), open, x + close);
    lemma_strip_run_behind(Class::Is(']'), x, close);
}

/// Law: a source goes by its identifier in compiled SQL, without the quotes
/// of a dialect; by the last part of its relation name where that leaves
/// nothing; else by its own name.
pub proof fn law_relation_token(s: SourceNode)
    ensures
        ({
            let ident = s.identifier is Some && bare_ident(s.identifier->0@).len() > 0;
            let leaf = s.relation_name is Some && bare_ident(
                after_last(s.relation_name->0@, '.'),
            ).len() > 0;
            &&& ident ==> relation_token(s) == bare_ident(s.identifier->0@)
            &&& !ident && leaf ==> relation_token(s) == bare_ident(
                after_last(s.relation_name->0@, '.'),
            )
            &&& !ident && !leaf ==> relation_token(s) == bare_ident(s.name@)
        }),
{
}

} // verus!
