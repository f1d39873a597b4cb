//! Lexicographic order, sort keys made of texts, and a stable sort.
use vstd::prelude::*;
use vstd::seq_lib::*;
use vstd::string::*;
use vstd::utf8::*;
use crate::text::{chars_of, opt_text};

verus! {

// ---------------------------------------------------------------------
// Lexicographic order
// ---------------------------------------------------------------------

/// `a` comes before `b` in lexicographic order.
pub open spec fn lex_lt(a: Seq<u64>, b: Seq<u64>) -> bool
    decreases a.len(),
{
    if b.len() == 0 {
        false
    } else if a.len() == 0 {
        true
    } else {
        a[0] < b[0] || (a[0] == b[0] && lex_lt(a.drop_first(), b.drop_first()))
    }
}

/// Nothing comes before itself.
pub proof fn lemma_lex_irreflexive(a: Seq<u64>)
    ensures
        !lex_lt(a, a),
    decreases a.len(),
{
    if a.len() > 0 {
        lemma_lex_irreflexive(a.drop_first());
    }
}

/// The order is transitive.
pub proof fn lemma_lex_transitive(a: Seq<u64>, b: Seq<u64>, c: Seq<u64>)
    requires
        lex_lt(a, b),
        lex_lt(b, c),
    ensures
        lex_lt(a, c),
    decreases a.len(),
{
    if a.len() > 0 && a[0] == b[0] && b[0] == c[0] {
        lemma_lex_transitive(a.drop_first(), b.drop_first(), c.drop_first());
    }
}

/// Of two different sequences, one comes before the other.
pub proof fn lemma_lex_total(a: Seq<u64>, b: Seq<u64>)
    ensures
        lex_lt(a, b) || a == b || lex_lt(b, a),
    decreases a.len(),
{
    if a.len() > 0 && b.len() > 0 {
        if a[0] == b[0] {
            lemma_lex_total(a.drop_first(), b.drop_first());
            if a.drop_first() == b.drop_first() {
                assert(a == seq![a[0]] + a.drop_first());
                assert(b == seq![b[0]] + b.drop_first());
            }
        }
    } else if a.len() == 0 && b.len() == 0 {
        assert(a == b);
    }
}

/// Whether `a` comes before `b` in lexicographic order.
pub fn lex_less(a: &Vec<u64>, b: &Vec<u64>) -> (r: bool)
    ensures
        r == lex_lt(a@, b@),
{
    let mut i: usize = 0;
    assert(a@.skip(0) == a@);
    assert(b@.skip(0) == b@);
    while i < a.len() && i < b.len()
        invariant
            i <= a@.len(),
            i <= b@.len(),
            lex_lt(a@, b@) == lex_lt(a@.skip(i as int), b@.skip(i as int)),
        decreases a@.len() - i,
    {
        assert(a@.skip(i as int).drop_first() == a@.skip(i as int + 1));
        assert(b@.skip(i as int).drop_first() == b@.skip(i as int + 1));
        if a[i] < b[i] {
            return true;
        }
        if a[i] > b[i] {
            return false;
        }
        i += 1;
    }
    i < b.len()
}

// ---------------------------------------------------------------------
// The order of texts
// ---------------------------------------------------------------------

/// The code point of a character.
pub open spec fn code(c: char) -> u64 {
    (c as u32) as u64
}

/// Code points are at most `0x10ffff`, and no two characters share one.
pub proof fn lemma_code(a: char, b: char)
    ensures
        code(a) <= 0x10ffff,
        code(a) == code(b) ==> a == b,
{
    char_is_scalar(a);
    char_is_scalar(b);
    if code(a) == code(b) {
        char_u32_cast(a, a as u32);
        char_u32_cast(b, b as u32);
    }
}

/// The code points of a text.
pub open spec fn codes(s: Seq<char>) -> Seq<u64> {
    Seq::new(s.len(), |i: int| code(s[i]))
}

/// `a` comes before `b` in the order of texts, by code points.
pub open spec fn text_lt(a: Seq<char>, b: Seq<char>) -> bool {
    lex_lt(codes(a), codes(b))
}

/// Texts with the same code points are the same.
pub proof fn lemma_codes_injective(a: Seq<char>, b: Seq<char>)
    requires
        codes(a) == codes(b),
    ensures
        a == b,
{
    assert(a.len() == codes(a).len());
    assert(b.len() == codes(b).len());
    assert forall|i: int| 0 <= i < a.len() implies a[i] == b[i] by {
        assert(codes(a)[i] == code(a[i]));
        assert(codes(b)[i] == code(b[i]));
        lemma_code(a[i], b[i]);
    }
    assert(a == b);
}

/// Of two different texts, one comes before the other.
pub proof fn lemma_text_total(a: Seq<char>, b: Seq<char>)
    ensures
        text_lt(a, b) || a == b || text_lt(b, a),
{
    lemma_lex_total(codes(a), codes(b));
    if codes(a) == codes(b) {
        lemma_codes_injective(a, b);
    }
}

/// The code points of `s`.
pub fn codes_of(s: &str) -> (r: Vec<u64>)
    ensures
        r@ == codes(s@),
{
    let v: Vec<char> = chars_of(s);
    let mut out: Vec<u64> = Vec::new();
    let mut i: usize = 0;
    while i < v.len()
        invariant
            i <= v@.len(),
            v@ == s@,
            out@ == codes(s@.take(i as int)),
        decreases v@.len() - i,
    {
        out.push(v[i] as u32 as u64);
        assert(out@ == codes(s@.take(i as int + 1)));
        i += 1;
    }
    assert(s@.take(i as int) == s@);
    out
}

/// Whether `a` comes before `b` in the order of texts.
pub fn text_less(a: &str, b: &str) -> (r: bool)
    ensures
        r == text_lt(a@, b@),
{
    let x: Vec<u64> = codes_of(a);
    let y: Vec<u64> = codes_of(b);
    lex_less(&x, &y)
}

// ---------------------------------------------------------------------
// Sort keys
// ---------------------------------------------------------------------

/// A text as one field of a sort key: each code point plus one, and a zero
/// behind the last.
pub open spec fn text_field(s: Seq<char>) -> Seq<u64> {
    Seq::new(s.len(), |i: int| (code(s[i]) + 1) as u64).push(0)
}

/// A list of texts as one field of a sort key: a one before each text, and a
/// zero behind the last.
pub open spec fn texts_field(v: Seq<Seq<char>>) -> Seq<u64>
    decreases v.len(),
{
    if v.len() == 0 {
        seq![0u64]
    } else {
        seq![1u64] + text_field(v[0]) + texts_field(v.drop_first())
    }
}

/// An optional text as one field of a sort key: no text comes first.
pub open spec fn opt_field(o: Option<Seq<char>>) -> Seq<u64> {
    match o {
        None => seq![0u64],
        Some(s) => seq![1u64] + text_field(s),
    }
}

/// Law: keys that begin with a text are ordered by that text first, and by
/// what follows where the texts are the same.
pub proof fn law_key_order(a: Seq<char>, b: Seq<char>, x: Seq<u64>, y: Seq<u64>)
    ensures
        lex_lt(text_field(a) + x, text_field(b) + y) <==> (text_lt(a, b) || (a == b && lex_lt(
            x,
            y,
        ))),
    decreases a.len(),
{
    let p = text_field(a) + x;
    let q = text_field(b) + y;
    if a.len() == 0 && b.len() == 0 {
        assert(a == b);
        assert(p.drop_first() == x);
        assert(q.drop_first() == y);
    } else if a.len() == 0 {
        lemma_code(b[0], b[0]);
        assert(p[0] == 0);
        assert(q[0] == code(b[0]) + 1);
    } else if b.len() == 0 {
        lemma_code(a[0], a[0]);
        assert(q[0] == 0);
        assert(p[0] == code(a[0]) + 1);
    } else {
        lemma_code(a[0], b[0]);
        lemma_code(b[0], a[0]);
        law_key_order(a.drop_first(), b.drop_first(), x, y);
        assert(p.drop_first() == text_field(a.drop_first()) + x);
        assert(q.drop_first() == text_field(b.drop_first()) + y);
        assert(codes(a).drop_first() == codes(a.drop_first()));
        assert(codes(b).drop_first() == codes(b.drop_first()));
        assert(p[0] == code(a[0]) + 1);
        assert(q[0] == code(b[0]) + 1);
        if a[0] == b[0] {
            assert(a == seq![a[0]] + a.drop_first());
            assert(b == seq![b[0]] + b.drop_first());
        }
    }
}

/// `a` comes before `b`: no text before any text, texts by their order.
pub open spec fn opt_lt(a: Option<Seq<char>>, b: Option<Seq<char>>) -> bool {
    match (a, b) {
        (None, Some(_)) => true,
        (Some(x), Some(y)) => text_lt(x, y),
        _ => false,
    }
}

/// `a` comes before `b` in lexicographic order, text by text.
pub open spec fn list_lt(a: Seq<Seq<char>>, b: Seq<Seq<char>>) -> bool
    decreases a.len(),
{
    if b.len() == 0 {
        false
    } else if a.len() == 0 {
        true
    } else {
        text_lt(a[0], b[0]) || (a[0] == b[0] && list_lt(a.drop_first(), b.drop_first()))
    }
}

/// Law: keys that begin with an optional text are ordered by that first, and
/// by what follows where it is the same.
pub proof fn law_opt_key_order(
    a: Option<Seq<char>>,
    b: Option<Seq<char>>,
    x: Seq<u64>,
    y: Seq<u64>,
)
    ensures
        lex_lt(opt_field(a) + x, opt_field(b) + y) <==> (opt_lt(a, b) || (a == b && lex_lt(x, y))),
{
    let p = opt_field(a) + x;
    let q = opt_field(b) + y;
    match (a, b) {
        (None, None) => {
            assert(p.drop_first() == x);
            assert(q.drop_first() == y);
        },
        (Some(s), Some(t)) => {
            assert(p.drop_first() == text_field(s) + x);
            assert(q.drop_first() == text_field(t) + y);
            law_key_order(s, t, x, y);
        },
        _ => {},
    }
}

/// Law: keys that begin with a list of texts are ordered by that list first,
/// and by what follows where the lists are the same.
pub proof fn law_list_key_order(a: Seq<Seq<char>>, b: Seq<Seq<char>>, x: Seq<u64>, y: Seq<u64>)
    ensures
        lex_lt(texts_field(a) + x, texts_field(b) + y) <==> (list_lt(a, b) || (a == b && lex_lt(
            x,
            y,
        ))),
    decreases a.len(),
{
    let p = texts_field(a) + x;
    let q = texts_field(b) + y;
    if a.len() == 0 && b.len() == 0 {
        assert(a == b);
        assert(p.drop_first() == x);
        assert(q.drop_first() == y);
    } else if a.len() > 0 && b.len() > 0 {
        let c = a.drop_first();
        let d = b.drop_first();
        assert(p.drop_first() == text_field(a[0]) + (texts_field(c) + x));
        assert(q.drop_first() == text_field(b[0]) + (texts_field(d) + y));
        law_key_order(a[0], b[0], texts_field(c) + x, texts_field(d) + y);
        law_list_key_order(c, d, x, y);
        if a[0] == b[0] && c == d {
            assert(a == seq![a[0]] + c);
            assert(b == seq![b[0]] + d);
        }
    }
}

/// Appends a text to a sort key.
pub fn push_text_field(key: &mut Vec<u64>, s: &str)
    ensures
        final(key)@ == old(key)@ + text_field(s@),
{
    let v: Vec<char> = chars_of(s);
    let ghost start = key@;
    let mut i: usize = 0;
    while i < v.len()
        invariant
            i <= v@.len(),
            v@ == s@,
            key@ == start + text_field(s@).take(i as int),
        decreases v@.len() - i,
    {
        proof {
            lemma_code(v@[i as int], v@[i as int]);
        }
        key.push(v[i] as u32 as u64 + 1);
        assert(key@ == start + text_field(s@).take(i as int + 1));
        i += 1;
    }
    key.push(0);
    assert(key@ == start + text_field(s@));
}

/// Appends a list of texts to a sort key.
pub fn push_texts_field(key: &mut Vec<u64>, v: &Vec<String>)
    ensures
        final(key)@ == old(key)@ + texts_field(crate::text::texts(v@)),
{
    let ghost start = key@;
    let ghost all = crate::text::texts(v@);
    let mut i: usize = 0;
    assert(all.skip(0) == all);
    while i < v.len()
        invariant
            i <= v@.len(),
            all == crate::text::texts(v@),
            start + texts_field(all) == key@ + texts_field(all.skip(i as int)),
        decreases v@.len() - i,
    {
        let ghost before = key@;
        assert(all.skip(i as int).drop_first() == all.skip(i as int + 1));
        key.push(1);
        push_text_field(key, v[i].as_str());
        assert(before + (seq![1u64] + text_field(all[i as int]) + texts_field(
            all.skip(i as int + 1),
        )) == key@ + texts_field(all.skip(i as int + 1)));
        i += 1;
    }
    key.push(0);
}

/// Appends an optional text to a sort key.
pub fn push_opt_field(key: &mut Vec<u64>, o: &Option<String>)
    ensures
        final(key)@ == old(key)@ + opt_field(opt_text(*o)),
{
    let ghost start = key@;
    match o {
        None => {
            key.push(0);
            assert(key@ == start + seq![0u64]);
        },
        Some(s) => {
            key.push(1);
            push_text_field(key, s.as_str());
            assert(key@ == start + (seq![1u64] + text_field(s@)));
        },
    }
}

// ---------------------------------------------------------------------
// Stable sort
// ---------------------------------------------------------------------

/// An item with its sort key.
pub struct Ranked<T> {
    pub key: Vec<u64>,
    pub item: T,
}

/// The keys and items of a list.
pub open spec fn ranks<T>(v: Seq<Ranked<T>>) -> Seq<(Seq<u64>, T)> {
    Seq::new(v.len(), |i: int| (v[i].key@, v[i].item))
}

/// `x` put into `s` behind every item whose key does not come after its own.
pub open spec fn placed<T>(s: Seq<(Seq<u64>, T)>, x: (Seq<u64>, T)) -> Seq<(Seq<u64>, T)>
    decreases s.len(),
{
    if s.len() == 0 || !lex_lt(x.0, s.last().0) {
        s.push(x)
    } else {
        placed(s.drop_last(), x).push(s.last())
    }
}

/// `s` in the order of its keys, items with the same key in the order in
/// which they stand in `s`.
pub open spec fn sorted<T>(s: Seq<(Seq<u64>, T)>) -> Seq<(Seq<u64>, T)>
    decreases s.len(),
{
    if s.len() == 0 {
        s
    } else {
        placed(sorted(s.drop_last()), s.last())
    }
}

/// The items of a list of keys and items.
pub open spec fn items<T>(s: Seq<(Seq<u64>, T)>) -> Seq<T> {
    Seq::new(s.len(), |i: int| s[i].1)
}

/// No key comes before one that stands earlier.
pub open spec fn ascending<T>(s: Seq<(Seq<u64>, T)>) -> bool {
    forall|i: int, j: int| 0 <= i < j < s.len() ==> !lex_lt((#[trigger] s[j]).0, (#[trigger] s[i]).0)
}

proof fn lemma_placed<T>(s: Seq<(Seq<u64>, T)>, x: (Seq<u64>, T))
    requires
        ascending(s),
    ensures
        ascending(placed(s, x)),
        placed(s, x).len() == s.len() + 1,
        placed(s, x).to_multiset() == s.to_multiset().insert(x),
    decreases s.len(),
{
    broadcast use to_multiset_build;

    if s.len() == 0 || !lex_lt(x.0, s.last().0) {
        let r = s.push(x);
        assert forall|i: int, j: int| 0 <= i < j < r.len() implies !lex_lt(
            (#[trigger] r[j]).0,
            (#[trigger] r[i]).0,
        ) by {
            if j == s.len() && i < s.len() - 1 {
                assert(!lex_lt(s[s.len() - 1].0, s[i].0));
                if lex_lt(x.0, s[i].0) {
                    let y = s.last().0;
                    lemma_lex_total(s[i].0, y);
                    if lex_lt(s[i].0, y) {
                        lemma_lex_transitive(x.0, s[i].0, y);
                    }
                }
            }
        }
    } else {
        let d = s.drop_last();
        let y = s.last();
        assert(ascending(d));
        lemma_placed(d, x);
        let p = placed(d, x);
        let r = p.push(y);
        assert forall|i: int, j: int| 0 <= i < j < r.len() implies !lex_lt(
            (#[trigger] r[j]).0,
            (#[trigger] r[i]).0,
        ) by {
            if j == p.len() {
                assert(p.to_multiset().contains(p[i])) by {
                    p.to_multiset_ensures();
                    assert(p.contains(p[i]));
                }
                if p[i] == x {
                    if lex_lt(y.0, x.0) {
                        lemma_lex_transitive(x.0, y.0, x.0);
                        lemma_lex_irreflexive(x.0);
                    }
                } else {
                    assert(d.to_multiset().contains(p[i]));
                    d.to_multiset_ensures();
                    assert(d.contains(p[i]));
                    let k = choose|k: int| 0 <= k < d.len() && d[k] == p[i];
                    assert(s[k] == p[i]);
                    assert(!lex_lt(s[s.len() - 1].0, s[k].0));
                }
            }
        }
        assert(s == d.push(y));
        assert(r.to_multiset() == d.to_multiset().insert(x).insert(y));
        assert(s.to_multiset() == d.to_multiset().insert(y));
        assert(d.to_multiset().insert(x).insert(y) =~= d.to_multiset().insert(y).insert(x));
    }
}

/// Law: sorting keeps every item and puts the keys in ascending order.
pub proof fn law_sorted<T>(s: Seq<(Seq<u64>, T)>)
    ensures
        ascending(sorted(s)),
        sorted(s).len() == s.len(),
        sorted(s).to_multiset() == s.to_multiset(),
    decreases s.len(),
{
    broadcast use to_multiset_build;

    if s.len() > 0 {
        law_sorted(s.drop_last());
        lemma_placed(sorted(s.drop_last()), s.last());
        assert(s == s.drop_last().push(s.last()));
    }
}

/// Renaming the items of a list does not change how it is sorted.
pub proof fn lemma_sorted_map<T, U>(s: Seq<(Seq<u64>, T)>, f: spec_fn(T) -> U)
    ensures
        sorted(renamed(s, f)) == renamed(sorted(s), f),
    decreases s.len(),
{
    if s.len() > 0 {
        lemma_sorted_map(s.drop_last(), f);
        assert(renamed(s, f).drop_last() == renamed(s.drop_last(), f));
        lemma_placed_map(sorted(s.drop_last()), s.last(), f);
    } else {
        assert(renamed(s, f) == renamed(sorted(s), f));
        assert(sorted(renamed(s, f)) == renamed(s, f));
    }
}

/// The list with `f` applied to each item.
pub open spec fn renamed<T, U>(s: Seq<(Seq<u64>, T)>, f: spec_fn(T) -> U) -> Seq<(Seq<u64>, U)> {
    Seq::new(s.len(), |i: int| (s[i].0, f(s[i].1)))
}

proof fn lemma_placed_map<T, U>(s: Seq<(Seq<u64>, T)>, x: (Seq<u64>, T), f: spec_fn(T) -> U)
    ensures
        placed(renamed(s, f), (x.0, f(x.1))) == renamed(placed(s, x), f),
    decreases s.len(),
{
    if s.len() == 0 || !lex_lt(x.0, s.last().0) {
        assert(renamed(s, f).push((x.0, f(x.1))) == renamed(s.push(x), f));
    } else {
        lemma_placed_map(s.drop_last(), x, f);
        assert(renamed(s, f).drop_last() == renamed(s.drop_last(), f));
        assert(renamed(placed(s.drop_last(), x).push(s.last()), f) == renamed(
            placed(s.drop_last(), x),
            f,
        ).push((s.last().0, f(s.last().1))));
    }
}

fn place<T>(v: &mut Vec<Ranked<T>>, x: Ranked<T>)
    ensures
        ranks(final(v)@) == placed(ranks(old(v)@), (x.key@, x.item)),
{
    let ghost all = ranks(v@);
    let ghost e = (x.key@, x.item);
    let mut i: usize = v.len();
    assert(all.take(i as int) == all);
    assert(placed(all, e) + Seq::empty() == placed(all, e));
    assert(all.skip(i as int) == Seq::<(Seq<u64>, T)>::empty());
    while i > 0 && lex_less(&x.key, &v[i - 1].key)
        invariant
            i <= v@.len(),
            v@ == old(v)@,
            all == ranks(v@),
            e == (x.key@, x.item),
            placed(all, e) == placed(all.take(i as int), e) + all.skip(i as int),
        decreases i,
    {
        proof {
            let t = all.take(i as int);
            assert(t.last() == all[i - 1]);
            assert(t.drop_last() == all.take(i - 1));
            assert(placed(all.take(i - 1), e).push(all[i - 1]) + all.skip(i as int) == placed(
                all.take(i - 1),
                e,
            ) + all.skip(i - 1));
        }
        i -= 1;
    }
    proof {
        let t = all.take(i as int);
        if i > 0 {
            assert(t.last() == all[i - 1]);
        }
        assert(placed(t, e) == t.push(e));
    }
    v.insert(i, x);
    assert(ranks(v@) == all.take(i as int).push(e) + all.skip(i as int));
}

/// Sorts by key; items with the same key stay in order.
pub fn sort_ranked<T>(v: Vec<Ranked<T>>) -> (r: Vec<Ranked<T>>)
    ensures
        ranks(r@) == sorted(ranks(v@)),
{
    let ghost all = ranks(v@);
    let mut out: Vec<Ranked<T>> = Vec::new();
    assert(ranks(out@) == Seq::<(Seq<u64>, T)>::empty());
    assert(all.take(0) == Seq::<(Seq<u64>, T)>::empty());
    for x in it: v
        invariant
            it.seq() == v@,
            all == ranks(v@),
            ranks(out@) == sorted(all.take(it.index() as int)),
    {
        proof {
            assert(all.take(it.index() as int + 1).drop_last() == all.take(it.index() as int));
        }
        place(&mut out, x);
    }
    assert(all.take(all.len() as int) == all);
    out
}

// ---------------------------------------------------------------------
// Sorting texts
// ---------------------------------------------------------------------

/// Texts with themselves as keys.
pub open spec fn self_keyed(s: Seq<Seq<char>>) -> Seq<(Seq<u64>, Seq<char>)> {
    Seq::new(s.len(), |i: int| (text_field(s[i]), s[i]))
}

/// `s` in the order of texts.
pub open spec fn sorted_texts(s: Seq<Seq<char>>) -> Seq<Seq<char>> {
    items(sorted(self_keyed(s)))
}

/// Sorts texts.
pub fn sort_texts(v: Vec<String>) -> (r: Vec<String>)
    ensures
        crate::text::texts(r@) == sorted_texts(crate::text::texts(v@)),
        r@.len() == v@.len(),
{
    let ghost f = |s: String| s@;
    let ghost all = crate::text::texts(v@);
    let mut ranked: Vec<Ranked<String>> = Vec::new();
    for s in it: v
        invariant
            it.seq() == v@,
            f == (|s: String| s@),
            all == crate::text::texts(v@),
            renamed(ranks(ranked@), f) == self_keyed(all).take(it.index() as int),
    {
        let ghost i = it.index() as int;
        let ghost before = ranked@;
        let mut key: Vec<u64> = Vec::new();
        push_text_field(&mut key, s.as_str());
        let ghost e = (text_field(s@), s@);
        assert(key@ == text_field(s@));
        ranked.push(Ranked { key, item: s });
        assert(renamed(ranks(ranked@), f) == renamed(ranks(before), f).push(e));
        assert(self_keyed(all).take(i + 1) == self_keyed(all).take(i).push(e));
    }
    proof {
        assert(self_keyed(all).take(all.len() as int) == self_keyed(all));
        lemma_sorted_map(ranks(ranked@), f);
        law_sorted(self_keyed(all));
    }
    let order: Vec<Ranked<String>> = sort_ranked(ranked);
    let ghost done = ranks(order@);
    let mut out: Vec<String> = Vec::new();
    for x in it: order
        invariant
            it.seq() == order@,
            done == ranks(order@),
            out@.len() == it.index(),
            forall|j: int| 0 <= j < out@.len() ==> #[trigger] out@[j] == done[j].1,
    {
        out.push(x.item);
    }
    proof {
        assert(crate::text::texts(out@) == items(renamed(done, f)));
    }
    out
}

/// Law: sorted texts stand in order, and are the texts that were there.
pub proof fn law_sorted_texts(s: Seq<Seq<char>>)
    ensures
        sorted_texts(s).len() == s.len(),
        sorted_texts(s).to_multiset() == s.to_multiset(),
        forall|i: int, j: int|
            0 <= i < j < s.len() ==> !text_lt(
                #[trigger] sorted_texts(s)[j],
                #[trigger] sorted_texts(s)[i],
            ),
{
    let keyed = self_keyed(s);
    let r = sorted(keyed);
    law_sorted(keyed);
    assert forall|k: int| 0 <= k < r.len() implies (#[trigger] r[k]).0 == text_field(r[k].1) by {
        r.to_multiset_ensures();
        keyed.to_multiset_ensures();
        assert(r.contains(r[k]));
        assert(r.to_multiset().contains(r[k]));
        assert(keyed.to_multiset().contains(r[k]));
        assert(keyed.contains(r[k]));
        let j = choose|j: int| 0 <= j < keyed.len() && keyed[j] == r[k];
        assert(keyed[j].0 == text_field(keyed[j].1));
    }
    assert forall|i: int, j: int| 0 <= i < j < s.len() implies !text_lt(
        #[trigger] sorted_texts(s)[j],
        #[trigger] sorted_texts(s)[i],
    ) by {
        assert(!lex_lt(r[j].0, r[i].0));
        law_key_order(r[j].1, r[i].1, Seq::empty(), Seq::empty());
        assert(text_field(r[j].1) + Seq::<u64>::empty() == r[j].0);
        assert(text_field(r[i].1) + Seq::<u64>::empty() == r[i].0);
    }
    lemma_items_multiset(keyed, r);
    assert(items(keyed) == s);
}

/// Lists with the same entries hold the same items.
pub proof fn lemma_items_multiset<T>(a: Seq<(Seq<u64>, T)>, b: Seq<(Seq<u64>, T)>)
    requires
        a.to_multiset() == b.to_multiset(),
    ensures
        items(a).to_multiset() == items(b).to_multiset(),
    decreases a.len(),
{
    a.to_multiset_ensures();
    b.to_multiset_ensures();
    to_multiset_len(a);
    to_multiset_len(b);
    if a.len() == 0 {
        assert(items(a) == items(b));
    } else {
        let x = a.last();
        assert(a.contains(x));
        assert(b.to_multiset().contains(x));
        assert(b.contains(x));
        let k = choose|k: int| 0 <= k < b.len() && b[k] == x;
        let a1 = a.drop_last();
        let b1 = b.remove(k);
        assert(a == a1.push(x));
        to_multiset_build(a1, x);
        to_multiset_remove(b, k);
        assert(a1.to_multiset() =~= a.to_multiset().remove(x));
        lemma_items_multiset(a1, b1);
        assert(items(a) == items(a1).push(x.1));
        to_multiset_build(items(a1), x.1);
        assert(items(b1) == items(b).remove(k));
        to_multiset_remove(items(b), k);
        items(b).to_multiset_ensures();
        assert(items(b).contains(items(b)[k]));
        assert(items(b).to_multiset().contains(x.1));
        assert(items(b).to_multiset().remove(x.1).insert(x.1) =~= items(b).to_multiset());
    }
}

// ---------------------------------------------------------------------
// Laws on the order and on the sort
// ---------------------------------------------------------------------

/// Law: of two sequences the one comes first that has the smaller number at
/// the first difference, or that is a beginning of the other.
pub proof fn law_lexicographic(p: Seq<u64>, x: u64, a: Seq<u64>, y: u64, b: Seq<u64>)
    ensures
        x < y ==> lex_lt(p + seq![x] + a, p + seq![y] + b),
        x > y ==> !lex_lt(p + seq![x] + a, p + seq![y] + b),
        lex_lt(p, p + seq![x] + a),
        !lex_lt(p + seq![x] + a, p),
        !lex_lt(p, p),
    decreases p.len(),
{
    let s = p + seq![x] + a;
    let t = p + seq![y] + b;
    if p.len() == 0 {
        assert(s[0] == x && t[0] == y);
    } else {
        let q = p.drop_first();
        law_lexicographic(q, x, a, y, b);
        assert(s.drop_first() == q + seq![x] + a);
        assert(t.drop_first() == q + seq![y] + b);
        assert(s[0] == p[0] && t[0] == p[0]);
    }
}

/// Law: of two texts the one comes first that has the character with the
/// smaller code point at the first difference, or that is a beginning of the
/// other.
pub proof fn law_text_order(p: Seq<char>, c: char, a: Seq<char>, d: char, b: Seq<char>)
    ensures
        (c as u32) < (d as u32) ==> text_lt(p + seq![c] + a, p + seq![d] + b),
        (c as u32) > (d as u32) ==> !text_lt(p + seq![c] + a, p + seq![d] + b),
        text_lt(p, p + seq![c] + a),
        !text_lt(p + seq![c] + a, p),
        !text_lt(p, p),
{
    lemma_code(c, d);
    lemma_code(d, c);
    law_lexicographic(codes(p), code(c), codes(a), code(d), codes(b));
    assert(codes(p + seq![c] + a) == codes(p) + seq![code(c)] + codes(a));
    assert(codes(p + seq![d] + b) == codes(p) + seq![code(d)] + codes(b));
}

/// Law: lists of texts are ordered by the first text in which they differ, a
/// beginning before what it begins; no text comes before a text.
pub proof fn law_list_order(
    p: Seq<Seq<char>>,
    s: Seq<char>,
    a: Seq<Seq<char>>,
    t: Seq<char>,
    b: Seq<Seq<char>>,
)
    ensures
        text_lt(s, t) ==> list_lt(p + seq![s] + a, p + seq![t] + b),
        text_lt(t, s) ==> !list_lt(p + seq![s] + a, p + seq![t] + b),
        list_lt(p, p + seq![s] + a),
        !list_lt(p + seq![s] + a, p),
        opt_lt(None, Some(s)),
        !opt_lt(Some(s), None),
        !opt_lt(None, None),
        opt_lt(Some(s), Some(t)) == text_lt(s, t),
    decreases p.len(),
{
    let x = p + seq![s] + a;
    let y = p + seq![t] + b;
    if p.len() == 0 {
        assert(x[0] == s && y[0] == t);
        if text_lt(t, s) && text_lt(s, t) {
            lemma_lex_transitive(codes(s), codes(t), codes(s));
            lemma_lex_irreflexive(codes(s));
        }
        if text_lt(t, s) {
            lemma_lex_irreflexive(codes(s));
        }
    } else {
        let q = p.drop_first();
        law_list_order(q, s, a, t, b);
        assert(x.drop_first() == q + seq![s] + a);
        assert(y.drop_first() == q + seq![t] + b);
        assert(x[0] == p[0] && y[0] == p[0]);
        lemma_lex_irreflexive(codes(p[0]));
    }
}

/// The items with the key `k`, in order.
pub open spec fn with_key<T>(s: Seq<(Seq<u64>, T)>, k: Seq<u64>) -> Seq<(Seq<u64>, T)> {
    s.filter(|e: (Seq<u64>, T)| e.0 == k)
}

proof fn lemma_placed_key<T>(s: Seq<(Seq<u64>, T)>, x: (Seq<u64>, T), k: Seq<u64>)
    requires
        forall|i: int, j: int|
            0 <= i < j < s.len() ==> !lex_lt((#[trigger] s[j]).0, (#[trigger] s[i]).0),
    ensures
        with_key(placed(s, x), k) == if x.0 == k {
            with_key(s, k).push(x)
        } else {
            with_key(s, k)
        },
    decreases s.len(),
{
    reveal(Seq::filter);
    if s.len() == 0 || !lex_lt(x.0, s.last().0) {
        assert(s.push(x).drop_last() == s);
    } else {
        let d = s.drop_last();
        let y = s.last();
        assert forall|i: int, j: int| 0 <= i < j < d.len() implies !lex_lt(
            (#[trigger] d[j]).0,
            (#[trigger] d[i]).0,
        ) by {
            assert(!lex_lt(s[j].0, s[i].0));
        }
        lemma_placed_key(d, x, k);
        let p = placed(d, x);
        assert(p.push(y).drop_last() == p);
        lemma_lex_irreflexive(x.0);
    }
}

/// Law: sorting puts the keys in order, keeps the items, and leaves items with
/// the same key in the order in which they stood.
pub proof fn law_stable_sort<T>(s: Seq<(Seq<u64>, T)>, k: Seq<u64>)
    ensures
        sorted(s).len() == s.len(),
        sorted(s).to_multiset() == s.to_multiset(),
        forall|i: int, j: int|
            0 <= i < j < s.len() ==> !lex_lt((#[trigger] sorted(s)[j]).0, (#[trigger] sorted(
                s,
            )[i]).0),
        with_key(sorted(s), k) == with_key(s, k),
    decreases s.len(),
{
    law_sorted(s);
    assert forall|i: int, j: int| 0 <= i < j < s.len() implies !lex_lt(
        (#[trigger] sorted(s)[j]).0,
        (#[trigger] sorted(s)[i]).0,
    ) by {
        assert(ascending(sorted(s)));
    }
    reveal(Seq::filter);
    if s.len() > 0 {
        let d = s.drop_last();
        law_stable_sort(d, k);
        assert(sorted(d).len() == d.len());
        lemma_placed_key(sorted(d), s.last(), k);
    }
}

/// Law: the items of a list are its second parts, in order.
pub proof fn law_items<T>(s: Seq<(Seq<u64>, T)>)
    ensures
        items(s).len() == s.len(),
        forall|i: int| 0 <= i < s.len() ==> #[trigger] items(s)[i] == s[i].1,
{
}

} // verus!
