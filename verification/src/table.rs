//! Ordered tables keyed by text, and ordered sets of texts.
use vstd::prelude::*;
use vstd::string::*;
use crate::order::{lemma_lex_irreflexive, lemma_lex_transitive, lemma_text_total, text_less, text_lt, codes};
use crate::text::same_text;

verus! {

/// An entry with the key `k` is among `s`.
pub open spec fn holds<V>(s: Seq<(Seq<char>, V)>, k: Seq<char>) -> bool {
    exists|i: int| 0 <= i < s.len() && (#[trigger] s[i]).0 == k
}

/// The value of an entry of `s` with the key `k`.
pub open spec fn lookup<V>(s: Seq<(Seq<char>, V)>, k: Seq<char>) -> V {
    s[choose|i: int| 0 <= i < s.len() && (#[trigger] s[i]).0 == k].1
}

/// The keys of `s` stand in ascending order, none of them twice.
pub open spec fn keys_ascend<V>(s: Seq<(Seq<char>, V)>) -> bool {
    forall|i: int, j: int| 0 <= i < j < s.len() ==> text_lt((#[trigger] s[i]).0, (#[trigger] s[j]).0)
}

/// The table that a list of entries stands for.
pub open spec fn table_of<V>(s: Seq<(Seq<char>, V)>) -> Map<Seq<char>, V> {
    Map::new(|k: Seq<char>| holds(s, k), |k: Seq<char>| lookup(s, k))
}

/// In a list with ascending keys, every entry is found under its key.
pub proof fn lemma_lookup<V>(s: Seq<(Seq<char>, V)>, i: int)
    requires
        keys_ascend(s),
        0 <= i < s.len(),
    ensures
        holds(s, s[i].0),
        lookup(s, s[i].0) == s[i].1,
        table_of(s).dom().contains(s[i].0),
        table_of(s)[s[i].0] == s[i].1,
{
    let k = s[i].0;
    let c = choose|c: int| 0 <= c < s.len() && (#[trigger] s[c]).0 == k;
    assert(s[c].0 == s[i].0);
    lemma_lex_irreflexive(codes(k));
    if c < i {
        assert(text_lt(s[c].0, s[i].0));
    } else if i < c {
        assert(text_lt(s[i].0, s[c].0));
    }
}

/// A table from texts to values, held in the order of the keys.
#[derive(Debug, PartialEq)]
pub struct StrMap<V> {
    entries: Vec<(String, V)>,
}

impl<V> View for StrMap<V> {
    type V = Map<Seq<char>, V>;

    open spec fn view(&self) -> Map<Seq<char>, V> {
        table_of(self.entries())
    }
}

impl<V> StrMap<V> {
    /// The entries in the order of their keys.
    pub closed spec fn entries(&self) -> Seq<(Seq<char>, V)> {
        Seq::new(self.entries@.len(), |i: int| (self.entries@[i].0@, self.entries@[i].1))
    }

    #[verifier::type_invariant]
    spec fn ordered(self) -> bool {
        keys_ascend(self.entries())
    }

    /// The empty table.
    pub fn new() -> (r: Self)
        ensures
            r@ == Map::<Seq<char>, V>::empty(),
            r.entries().len() == 0,
    {
        let r: StrMap<V> = StrMap { entries: Vec::new() };
        assert(r@ =~= Map::<Seq<char>, V>::empty());
        r
    }

    /// The number of entries.
    pub fn len(&self) -> (n: usize)
        ensures
            n == self.entries().len(),
            keys_ascend(self.entries()),
    {
        proof {
            use_type_invariant(&*self);
        }
        self.entries.len()
    }

    /// Whether there is no entry.
    pub fn is_empty(&self) -> (r: bool)
        ensures
            r == (self.entries().len() == 0),
            r == (self@ =~= Map::<Seq<char>, V>::empty()),
    {
        proof {
            use_type_invariant(&*self);
            if self.entries().len() == 0 {
                assert(self@ =~= Map::<Seq<char>, V>::empty());
            } else {
                lemma_lookup(self.entries(), 0);
            }
        }
        self.entries.len() == 0
    }

    /// The key of the entry at position `i`.
    pub fn key_at(&self, i: usize) -> (r: &String)
        requires
            i < self.entries().len(),
        ensures
            r@ == self.entries()[i as int].0,
    {
        &self.entries[i].0
    }

    /// The value of the entry at position `i`.
    pub fn value_at(&self, i: usize) -> (r: &V)
        requires
            i < self.entries().len(),
        ensures
            *r == self.entries()[i as int].1,
            self@.dom().contains(self.entries()[i as int].0),
            self@[self.entries()[i as int].0] == *r,
    {
        proof {
            use_type_invariant(&*self);
            lemma_lookup(self.entries(), i as int);
        }
        &self.entries[i].1
    }

    /// The value under `key`, if there is one.
    pub fn get(&self, key: &str) -> (r: Option<&V>)
        ensures
            match r {
                Some(v) => self@.dom().contains(key@) && self@[key@] == *v,
                None => !self@.dom().contains(key@),
            },
    {
        proof {
            use_type_invariant(&*self);
        }
        let ghost s = self.entries();
        let mut i: usize = 0;
        while i < self.entries.len()
            invariant
                i <= self.entries@.len(),
                s == self.entries(),
                keys_ascend(s),
                forall|j: int| 0 <= j < i ==> (#[trigger] s[j]).0 != key@,
            decreases self.entries@.len() - i,
        {
            if same_text(self.entries[i].0.as_str(), key) {
                proof {
                    assert(s[i as int].0 == key@);
                    lemma_lookup(s, i as int);
                }
                return Some(&self.entries[i].1);
            }
            assert(s[i as int].0 != key@);
            i += 1;
        }
        None
    }

    /// Whether there is an entry under `key`.
    pub fn contains_key(&self, key: &str) -> (r: bool)
        ensures
            r == self@.dom().contains(key@),
    {
        self.get(key).is_some()
    }

    /// Puts `value` under `key`, in place of what stood there.
    pub fn insert(&mut self, key: String, value: V)
        ensures
            final(self)@ == old(self)@.insert(key@, value),
    {
        proof {
            use_type_invariant(&*self);
        }
        let ghost s = self.entries();
        let ghost k = key@;
        let mut es: Vec<(String, V)> = Vec::new();
        std::mem::swap(&mut es, &mut self.entries);
        let mut i: usize = 0;
        while i < es.len() && text_less(es[i].0.as_str(), key.as_str())
            invariant
                i <= es@.len(),
                s.len() == es@.len(),
                k == key@,
                forall|j: int| 0 <= j < s.len() ==> #[trigger] s[j] == (es@[j].0@, es@[j].1),
                forall|j: int| 0 <= j < i ==> text_lt((#[trigger] s[j]).0, k),
            decreases es@.len() - i,
        {
            assert(s[i as int].0 == es@[i as int].0@);
            i += 1;
        }
        let ghost p = i as int;
        if i < es.len() && same_text(es[i].0.as_str(), key.as_str()) {
            es[i] = (key, value);
            proof {
                let t = Seq::new(es@.len(), |j: int| (es@[j].0@, es@[j].1));
                assert(s[p].0 == k);
                assert(t == s.update(p, (k, value)));
                assert(keys_ascend(t)) by {
                    assert forall|a: int, b: int| 0 <= a < b < t.len() implies text_lt(
                        (#[trigger] t[a]).0,
                        (#[trigger] t[b]).0,
                    ) by {
                        assert(t[a].0 == s[a].0);
                        assert(t[b].0 == s[b].0);
                    }
                }
                lemma_updated(s, p, k, value);
            }
        } else {
            proof {
                if p < s.len() {
                    assert(s[p].0 == es@[p].0@);
                    lemma_text_total(s[p].0, k);
                }
            }
            es.insert(i, (key, value));
            proof {
                let t = Seq::new(es@.len(), |j: int| (es@[j].0@, es@[j].1));
                assert(t == s.insert(p, (k, value)));
                lemma_inserted(s, p, k, value);
            }
        }
        self.entries = es;
    }

    /// Takes out what stands under `key`.
    pub fn remove(&mut self, key: &str) -> (r: Option<V>)
        ensures
            match r {
                Some(v) => old(self)@.dom().contains(key@) && old(self)@[key@] == v,
                None => !old(self)@.dom().contains(key@),
            },
            final(self)@ == old(self)@.remove(key@),
    {
        proof {
            use_type_invariant(&*self);
        }
        let ghost s = self.entries();
        let mut es: Vec<(String, V)> = Vec::new();
        std::mem::swap(&mut es, &mut self.entries);
        let mut i: usize = 0;
        while i < es.len()
            invariant
                i <= es@.len(),
                s.len() == es@.len(),
                keys_ascend(s),
                old(self)@ == table_of(s),
                forall|j: int| 0 <= j < s.len() ==> #[trigger] s[j] == (es@[j].0@, es@[j].1),
                forall|j: int| 0 <= j < i ==> (#[trigger] s[j]).0 != key@,
            decreases es@.len() - i,
        {
            assert(s[i as int] == (es@[i as int].0@, es@[i as int].1));
            if same_text(es[i].0.as_str(), key) {
                proof {
                    lemma_removed(s, i as int);
                    lemma_lookup(s, i as int);
                }
                let (_key, value) = es.remove(i);
                proof {
                    let t = Seq::new(es@.len(), |j: int| (es@[j].0@, es@[j].1));
                    assert(t == s.remove(i as int));
                }
                self.entries = es;
                return Some(value);
            }
            i += 1;
        }
        proof {
            let t = Seq::new(es@.len(), |j: int| (es@[j].0@, es@[j].1));
            assert(t == s);
            assert(!holds(s, key@));
            assert(table_of(s) =~= table_of(s).remove(key@));
        }
        self.entries = es;
        None
    }

    /// The entries, in the order of their keys.
    pub fn into_entries(self) -> (r: Vec<(String, V)>)
        ensures
            r@.len() == self.entries().len(),
            forall|i: int|
                0 <= i < r@.len() ==> (#[trigger] r@[i]).0@ == self.entries()[i].0 && r@[i].1
                    == self.entries()[i].1,
            keys_ascend(self.entries()),
    {
        proof {
            use_type_invariant(&self);
        }
        self.entries
    }
}

proof fn lemma_updated<V>(s: Seq<(Seq<char>, V)>, p: int, k: Seq<char>, v: V)
    requires
        keys_ascend(s),
        0 <= p < s.len(),
        s[p].0 == k,
        keys_ascend(s.update(p, (k, v))),
    ensures
        table_of(s.update(p, (k, v))) == table_of(s).insert(k, v),
{
    let t = s.update(p, (k, v));
    assert forall|x: Seq<char>| table_of(t).dom().contains(x) == table_of(s).insert(
        k,
        v,
    ).dom().contains(x) by {
        if holds(s, x) {
            let i = choose|i: int| 0 <= i < s.len() && (#[trigger] s[i]).0 == x;
            assert(t[i].0 == x);
        }
        if holds(t, x) {
            let i = choose|i: int| 0 <= i < t.len() && (#[trigger] t[i]).0 == x;
            assert(s[i].0 == x);
        }
        assert(t[p].0 == k);
    }
    assert forall|x: Seq<char>| table_of(t).dom().contains(x) implies table_of(t)[x] == table_of(
        s,
    ).insert(k, v)[x] by {
        let i = choose|i: int| 0 <= i < t.len() && (#[trigger] t[i]).0 == x;
        lemma_lookup(t, i);
        lemma_lookup(t, p);
        if i != p {
            lemma_lookup(s, i);
            if x == k {
                assert(t[i].0 == t[p].0);
                lemma_lex_irreflexive(codes(k));
                if i < p {
                    assert(text_lt(t[i].0, t[p].0));
                } else {
                    assert(text_lt(t[p].0, t[i].0));
                }
            }
        }
    }
    assert(table_of(t) =~= table_of(s).insert(k, v));
}

proof fn lemma_inserted<V>(s: Seq<(Seq<char>, V)>, p: int, k: Seq<char>, v: V)
    requires
        keys_ascend(s),
        0 <= p <= s.len(),
        forall|j: int| 0 <= j < p ==> text_lt((#[trigger] s[j]).0, k),
        p < s.len() ==> text_lt(k, s[p].0),
    ensures
        keys_ascend(s.insert(p, (k, v))),
        table_of(s.insert(p, (k, v))) == table_of(s).insert(k, v),
{
    let t = s.insert(p, (k, v));
    assert forall|j: int| p <= j < s.len() implies text_lt(k, (#[trigger] s[j]).0) by {
        if j > p {
            assert(text_lt(s[p].0, s[j].0));
            lemma_lex_transitive(codes(k), codes(s[p].0), codes(s[j].0));
        }
    }
    assert forall|a: int, b: int| 0 <= a < b < t.len() implies text_lt(
        (#[trigger] t[a]).0,
        (#[trigger] t[b]).0,
    ) by {
        let x = if a < p {
            a
        } else {
            a - 1
        };
        let y = if b < p {
            b
        } else {
            b - 1
        };
        if a != p && b != p {
            assert(text_lt(s[x].0, s[y].0));
        } else if a == p {
            assert(t[b] == s[y]);
        } else {
            assert(t[a] == s[x]);
        }
    }
    assert forall|x: Seq<char>| table_of(t).dom().contains(x) == table_of(s).insert(
        k,
        v,
    ).dom().contains(x) by {
        if holds(s, x) {
            let i = choose|i: int| 0 <= i < s.len() && (#[trigger] s[i]).0 == x;
            if i < p {
                assert(t[i].0 == x);
            } else {
                assert(t[i + 1].0 == x);
            }
        }
        if holds(t, x) {
            let i = choose|i: int| 0 <= i < t.len() && (#[trigger] t[i]).0 == x;
            if i < p {
                assert(s[i].0 == x);
            } else if i > p {
                assert(s[i - 1].0 == x);
            }
        }
        assert(t[p].0 == k);
    }
    assert forall|x: Seq<char>| table_of(t).dom().contains(x) implies table_of(t)[x] == table_of(
        s,
    ).insert(k, v)[x] by {
        let i = choose|i: int| 0 <= i < t.len() && (#[trigger] t[i]).0 == x;
        lemma_lookup(t, i);
        if i != p {
            lemma_lex_irreflexive(codes(k));
            let j = if i < p {
                i
            } else {
                i - 1
            };
            assert(s[j] == t[i]);
            lemma_lookup(s, j);
        }
    }
    assert(table_of(t) =~= table_of(s).insert(k, v));
}

proof fn lemma_removed<V>(s: Seq<(Seq<char>, V)>, p: int)
    requires
        keys_ascend(s),
        0 <= p < s.len(),
    ensures
        keys_ascend(s.remove(p)),
        table_of(s.remove(p)) == table_of(s).remove(s[p].0),
{
    let t = s.remove(p);
    let k = s[p].0;
    assert forall|a: int, b: int| 0 <= a < b < t.len() implies text_lt(
        (#[trigger] t[a]).0,
        (#[trigger] t[b]).0,
    ) by {
        let x = if a < p {
            a
        } else {
            a + 1
        };
        let y = if b < p {
            b
        } else {
            b + 1
        };
        assert(t[a] == s[x]);
        assert(t[b] == s[y]);
        assert(text_lt(s[x].0, s[y].0));
    }
    assert forall|j: int| 0 <= j < s.len() && j != p implies (#[trigger] s[j]).0 != k by {
        lemma_lex_irreflexive(codes(k));
        if j < p {
            assert(text_lt(s[j].0, s[p].0));
        } else {
            assert(text_lt(s[p].0, s[j].0));
        }
    }
    assert forall|x: Seq<char>| table_of(t).dom().contains(x) == table_of(s).remove(
        k,
    ).dom().contains(x) by {
        if holds(s, x) && x != k {
            let i = choose|i: int| 0 <= i < s.len() && (#[trigger] s[i]).0 == x;
            if i < p {
                assert(t[i].0 == x);
            } else {
                assert(t[i - 1].0 == x);
            }
        }
        if holds(t, x) {
            let i = choose|i: int| 0 <= i < t.len() && (#[trigger] t[i]).0 == x;
            if i < p {
                assert(s[i].0 == x);
            } else {
                assert(s[i + 1].0 == x);
            }
        }
    }
    assert forall|x: Seq<char>| table_of(t).dom().contains(x) implies table_of(t)[x] == table_of(
        s,
    ).remove(k)[x] by {
        let i = choose|i: int| 0 <= i < t.len() && (#[trigger] t[i]).0 == x;
        let j = if i < p {
            i
        } else {
            i + 1
        };
        assert(s[j] == t[i]);
        lemma_lookup(t, i);
        lemma_lookup(s, j);
    }
    assert(table_of(t) =~= table_of(s).remove(k));
}

/// A set of texts, held in their order.
#[derive(Debug, PartialEq)]
pub struct StrSet {
    members: StrMap<()>,
}

impl View for StrSet {
    type V = Set<Seq<char>>;

    closed spec fn view(&self) -> Set<Seq<char>> {
        self.members@.dom()
    }
}

/// The texts stand in ascending order, none of them twice.
pub open spec fn texts_ascend(s: Seq<Seq<char>>) -> bool {
    forall|i: int, j: int| 0 <= i < j < s.len() ==> text_lt(#[trigger] s[i], #[trigger] s[j])
}

/// The members of a set, in their order.
pub open spec fn in_order(s: Set<Seq<char>>) -> Seq<Seq<char>> {
    choose|l: Seq<Seq<char>>| texts_ascend(l) && l.to_set() == s
}

proof fn lemma_ascending_unique(a: Seq<Seq<char>>, b: Seq<Seq<char>>)
    requires
        texts_ascend(a),
        texts_ascend(b),
        forall|t: Seq<char>| a.contains(t) <==> b.contains(t),
    ensures
        a == b,
    decreases a.len(),
{
    if a.len() == 0 {
        if b.len() > 0 {
            assert(b.contains(b[0]));
            assert(a.contains(b[0]));
        }
        assert(a == b);
    } else {
        let n = a.len() - 1;
        assert(a.contains(a[n]));
        assert(b.contains(a[n]));
        let j = choose|j: int| 0 <= j < b.len() && b[j] == a[n];
        let m = b.len() - 1;
        assert(b.contains(b[m]));
        assert(a.contains(b[m]));
        let i = choose|i: int| 0 <= i < a.len() && a[i] == b[m];
        lemma_lex_irreflexive(codes(a[n]));
        if j < m {
            assert(text_lt(b[j], b[m]));
            if i < n {
                assert(text_lt(a[i], a[n]));
                lemma_lex_transitive(codes(a[n]), codes(a[i]), codes(a[n]));
            }
        }
        assert(a[n] == b[m]);
        let x = a.drop_last();
        let y = b.drop_last();
        assert(texts_ascend(x)) by {
            assert forall|p: int, q: int| 0 <= p < q < x.len() implies text_lt(
                #[trigger] x[p],
                #[trigger] x[q],
            ) by {
                assert(text_lt(a[p], a[q]));
            }
        }
        assert(texts_ascend(y)) by {
            assert forall|p: int, q: int| 0 <= p < q < y.len() implies text_lt(
                #[trigger] y[p],
                #[trigger] y[q],
            ) by {
                assert(text_lt(b[p], b[q]));
            }
        }
        assert forall|t: Seq<char>| x.contains(t) <==> y.contains(t) by {
            if x.contains(t) {
                let p = choose|p: int| 0 <= p < x.len() && x[p] == t;
                assert(a[p] == t);
                assert(text_lt(a[p], a[n]));
                assert(a.contains(t));
                let q = choose|q: int| 0 <= q < b.len() && b[q] == t;
                assert(q != m);
                assert(y[q] == t);
            }
            if y.contains(t) {
                let p = choose|p: int| 0 <= p < y.len() && y[p] == t;
                assert(b[p] == t);
                assert(text_lt(b[p], b[m]));
                assert(b.contains(t));
                let q = choose|q: int| 0 <= q < a.len() && a[q] == t;
                assert(q != n);
                assert(x[q] == t);
            }
        }
        lemma_ascending_unique(x, y);
        assert(a == x.push(a[n]));
        assert(b == y.push(b[m]));
    }
}

/// An ascending list is the list of its members in their order.
pub proof fn lemma_in_order(l: Seq<Seq<char>>)
    requires
        texts_ascend(l),
    ensures
        in_order(l.to_set()) == l,
{
    let s = l.to_set();
    assert(texts_ascend(l) && l.to_set() == s);
    let c = in_order(s);
    assert forall|t: Seq<char>| c.contains(t) <==> l.contains(t) by {
        assert(c.to_set().contains(t) <==> l.to_set().contains(t));
    }
    lemma_ascending_unique(c, l);
}

impl StrSet {
    /// The members in their order.
    pub closed spec fn list(&self) -> Seq<Seq<char>> {
        Seq::new(self.members.entries().len(), |i: int| self.members.entries()[i].0)
    }

    /// The empty set.
    pub fn new() -> (r: Self)
        ensures
            r@ == Set::<Seq<char>>::empty(),
            r.list().len() == 0,
    {
        let r: StrSet = StrSet { members: StrMap::new() };
        assert(r@ =~= Set::<Seq<char>>::empty());
        r
    }

    /// The number of members.
    pub fn len(&self) -> (n: usize)
        ensures
            n == self.list().len(),
            texts_ascend(self.list()),
            forall|t: Seq<char>| self@.contains(t) <==> self.list().contains(t),
            self.list() == in_order(self@),
    {
        let n: usize = self.members.len();
        proof {
            let es = self.members.entries();
            assert(texts_ascend(self.list())) by {
                assert forall|i: int, j: int| 0 <= i < j < self.list().len() implies text_lt(
                    #[trigger] self.list()[i],
                    #[trigger] self.list()[j],
                ) by {
                    assert(text_lt(es[i].0, es[j].0));
                }
            }
            assert forall|t: Seq<char>| self@.contains(t) <==> self.list().contains(t) by {
                if holds(es, t) {
                    let i = choose|i: int| 0 <= i < es.len() && (#[trigger] es[i]).0 == t;
                    assert(self.list()[i] == t);
                }
                if self.list().contains(t) {
                    let i = choose|i: int| 0 <= i < self.list().len() && self.list()[i] == t;
                    assert(es[i].0 == t);
                }
            }
            lemma_in_order(self.list());
            assert(self.list().to_set() =~= self@);
        }
        n
    }

    /// The member at position `i`.
    pub fn at(&self, i: usize) -> (r: &String)
        requires
            i < self.list().len(),
        ensures
            r@ == self.list()[i as int],
            self@.contains(r@),
    {
        let ghost es = self.members.entries();
        let r: &String = self.members.key_at(i);
        assert(es[i as int].0 == r@);
        r
    }

    /// Whether `text` is a member.
    pub fn contains(&self, text: &str) -> (r: bool)
        ensures
            r == self@.contains(text@),
    {
        self.members.contains_key(text)
    }

    /// Adds `text`.
    pub fn insert(&mut self, text: String)
        ensures
            final(self)@ == old(self)@.insert(text@),
    {
        let ghost before = self.members@;
        self.members.insert(text, ());
        assert(self.members@.dom() =~= before.dom().insert(text@));
    }
}

// ---------------------------------------------------------------------
// Laws on tables and sets
// ---------------------------------------------------------------------

/// Law: a list of entries whose keys ascend stands for the table with exactly
/// those keys, each with the value beside it.
pub proof fn law_table<V>(s: Seq<(Seq<char>, V)>, k: Seq<char>)
    requires
        forall|i: int, j: int|
            0 <= i < j < s.len() ==> text_lt((#[trigger] s[i]).0, (#[trigger] s[j]).0),
    ensures
        keys_ascend(s),
        table_of(s).dom().contains(k) <==> exists|i: int|
            0 <= i < s.len() && (#[trigger] s[i]).0 == k,
        forall|i: int|
            0 <= i < s.len() && (#[trigger] s[i]).0 == k ==> table_of(s)[k] == s[i].1,
{
    assert forall|i: int| 0 <= i < s.len() && (#[trigger] s[i]).0 == k implies table_of(s)[k]
        == s[i].1 by {
        lemma_lookup(s, i);
    }
}

proof fn lemma_one_more_text(l: Seq<Seq<char>>, t: Seq<char>) -> (r: Seq<Seq<char>>)
    requires
        texts_ascend(l),
        !l.contains(t),
    ensures
        texts_ascend(r),
        forall|x: Seq<char>| #[trigger] r.contains(x) <==> l.contains(x) || x == t,
    decreases l.len(),
{
    if l.len() == 0 {
        let r = seq![t];
        assert(r[0] == t);
        r
    } else if text_lt(l.last(), t) {
        let r = l.push(t);
        assert forall|i: int, j: int| 0 <= i < j < r.len() implies text_lt(
            #[trigger] r[i],
            #[trigger] r[j],
        ) by {
            if j == l.len() && i < l.len() - 1 {
                assert(text_lt(l[i], l.last()));
                lemma_lex_transitive(codes(l[i]), codes(l.last()), codes(t));
            }
        }
        assert forall|x: Seq<char>| #[trigger] r.contains(x) <==> l.contains(x) || x == t by {
            if l.contains(x) {
                let i = choose|i: int| 0 <= i < l.len() && l[i] == x;
                assert(r[i] == x);
            }
            assert(r[l.len() as int] == t);
        }
        r
    } else {
        let d = l.drop_last();
        let last = l.last();
        assert(l.contains(last));
        lemma_text_total(last, t);
        assert(texts_ascend(d)) by {
            assert forall|i: int, j: int| 0 <= i < j < d.len() implies text_lt(
                #[trigger] d[i],
                #[trigger] d[j],
            ) by {
                assert(text_lt(l[i], l[j]));
            }
        }
        assert(!d.contains(t)) by {
            if d.contains(t) {
                let i = choose|i: int| 0 <= i < d.len() && d[i] == t;
                assert(l[i] == t);
            }
        }
        let e = lemma_one_more_text(d, t);
        let r = e.push(last);
        assert forall|i: int, j: int| 0 <= i < j < r.len() implies text_lt(
            #[trigger] r[i],
            #[trigger] r[j],
        ) by {
            if j == e.len() {
                assert(e.contains(e[i]));
                if e[i] != t {
                    let k = choose|k: int| 0 <= k < d.len() && d[k] == e[i];
                    assert(text_lt(l[k], l[l.len() - 1]));
                }
            }
        }
        assert forall|x: Seq<char>| #[trigger] r.contains(x) <==> l.contains(x) || x == t by {
            if l.contains(x) {
                let i = choose|i: int| 0 <= i < l.len() && l[i] == x;
                if i < d.len() {
                    assert(d[i] == x);
                    assert(e.contains(x));
                    let k = choose|k: int| 0 <= k < e.len() && e[k] == x;
                    assert(r[k] == x);
                } else {
                    assert(r[e.len() as int] == x);
                }
            }
            if x == t {
                assert(e.contains(x));
                let k = choose|k: int| 0 <= k < e.len() && e[k] == x;
                assert(r[k] == x);
            }
            if r.contains(x) {
                let k = choose|k: int| 0 <= k < r.len() && r[k] == x;
                if k < e.len() {
                    assert(e.contains(x));
                    if x != t {
                        let i = choose|i: int| 0 <= i < d.len() && d[i] == x;
                        assert(l[i] == x);
                    }
                }
            }
        }
        r
    }
}

proof fn lemma_ascending_members(s: Seq<Seq<char>>) -> (r: Seq<Seq<char>>)
    ensures
        texts_ascend(r),
        forall|x: Seq<char>| #[trigger] r.contains(x) <==> s.contains(x),
    decreases s.len(),
{
    if s.len() == 0 {
        s
    } else {
        let d = s.drop_last();
        let t = s.last();
        let e = lemma_ascending_members(d);
        assert forall|x: Seq<char>| #[trigger] s.contains(x) <==> d.contains(x) || x == t by {
            if d.contains(x) {
                let i = choose|i: int| 0 <= i < d.len() && d[i] == x;
                assert(s[i] == x);
            }
            if s.contains(x) && x != t {
                let i = choose|i: int| 0 <= i < s.len() && s[i] == x;
                assert(d[i] == x);
            }
        }
        if e.contains(t) {
            e
        } else {
            lemma_one_more_text(e, t)
        }
    }
}

/// Law: the texts of a list, put in order, hold each of them once, ascending,
/// and no others; and a list that holds them so is that list.
pub proof fn law_in_order(s: Seq<Seq<char>>, l: Seq<Seq<char>>)
    ensures
        forall|x: Seq<char>| #[trigger] in_order(s.to_set()).contains(x) <==> s.contains(x),
        forall|i: int, j: int|
            0 <= i < j < in_order(s.to_set()).len() ==> text_lt(
                #[trigger] in_order(s.to_set())[i],
                #[trigger] in_order(s.to_set())[j],
            ),
        (forall|i: int, j: int|
            0 <= i < j < l.len() ==> text_lt(#[trigger] l[i], #[trigger] l[j])) && (forall|
            x: Seq<char>,
        | #[trigger] l.contains(x) <==> s.contains(x)) ==> in_order(s.to_set()) == l,
{
    let r = lemma_ascending_members(s);
    assert(r.to_set() =~= s.to_set());
    let o = in_order(s.to_set());
    assert(texts_ascend(o) && o.to_set() == s.to_set());
    assert forall|x: Seq<char>| #[trigger] o.contains(x) <==> s.contains(x) by {
        assert(o.to_set().contains(x) <==> s.to_set().contains(x));
    }
    if (forall|i: int, j: int| 0 <= i < j < l.len() ==> text_lt(#[trigger] l[i], #[trigger] l[j]))
        && (forall|x: Seq<char>| #[trigger] l.contains(x) <==> s.contains(x)) {
        assert(texts_ascend(l));
        assert(l.to_set() =~= s.to_set());
        lemma_in_order(l);
    }
}

} // verus!
