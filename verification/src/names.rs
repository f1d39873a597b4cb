//! The names under which a report lists models: bare where that is clear,
//! with the whole id where two models share a bare name.
use vstd::prelude::*;
use vstd::string::*;
use crate::domain::{bare_name_of, bare_of, Manifest};
use crate::order::{sort_texts, sorted_texts};
use crate::table::{in_order, StrSet};
use crate::text::{join, joined, same_text, texts};

verus! {

/// How many names a sentence lists; more are listed apart.
pub const CONFIG_AFFECTED_CAP: usize = 10;

/// Another id than the one at `i` among `ids` has the same bare name.
pub open spec fn bare_shared(m: Manifest, ids: Seq<Seq<char>>, i: int) -> bool {
    exists|j: int|
        0 <= j < ids.len() && #[trigger] ids[j] != ids[i] && bare_of(m, ids[j]) == bare_of(
            m,
            ids[i],
        )
}

/// The bare name of the id at `i` is another of `ids`.
pub open spec fn bare_is_id(m: Manifest, ids: Seq<Seq<char>>, i: int) -> bool {
    exists|j: int| 0 <= j < ids.len() && #[trigger] ids[j] != ids[i] && bare_of(m, ids[i]) == ids[j]
}

/// The name that the id at `i` is listed under: its bare name where that could
/// be taken for no other of `ids`, else the whole id.
pub open spec fn display_name(m: Manifest, ids: Seq<Seq<char>>, i: int) -> Seq<char> {
    if bare_shared(m, ids, i) || bare_is_id(m, ids, i) {
        ids[i]
    } else {
        bare_of(m, ids[i])
    }
}

/// The names that `ids` are listed under.
pub open spec fn display_names(m: Manifest, ids: Seq<Seq<char>>) -> Seq<Seq<char>> {
    Seq::new(ids.len(), |i: int| display_name(m, ids, i))
}

/// The name that the id at `i` is listed under.
fn display_of(current: &Manifest, ids: &Vec<String>, i: usize) -> (r: String)
    requires
        i < ids@.len(),
    ensures
        r@ == display_name(*current, texts(ids@), i as int),
{
    let ghost all = texts(ids@);
    let bare: &str = bare_name_of(current, ids[i].as_str());
    assert(all[i as int] == ids@[i as int]@);
    let mut j: usize = 0;
    while j < ids.len()
        invariant
            j <= ids@.len(),
            i < ids@.len(),
            all == texts(ids@),
            bare@ == bare_of(*current, all[i as int]),
            forall|k: int|
                0 <= k < j && #[trigger] all[k] != all[i as int] ==> bare_of(*current, all[k])
                    != bare_of(*current, all[i as int]) && all[k] != bare_of(
                    *current,
                    all[i as int],
                ),
        decreases ids@.len() - j,
    {
        assert(all[j as int] == ids@[j as int]@);
        let other: &str = ids[j].as_str();
        if !same_text(other, ids[i].as_str()) && (same_text(bare_name_of(current, other), bare)
            || same_text(other, bare)) {
            assert(all[j as int] != all[i as int]);
            assert(bare_shared(*current, all, i as int) || bare_is_id(*current, all, i as int));
            return ids[i].clone();
        }
        j += 1;
    }
    bare.to_owned()
}

/// The names that `ids` are listed under, in the order of `ids`.
pub fn displays(current: &Manifest, ids: &Vec<String>) -> (r: Vec<String>)
    ensures
        texts(r@) == display_names(*current, texts(ids@)),
{
    let ghost all = texts(ids@);
    let ghost m = *current;
    let mut out: Vec<String> = Vec::new();
    let mut i: usize = 0;
    while i < ids.len()
        invariant
            i <= ids@.len(),
            all == texts(ids@),
            m == *current,
            texts(out@) == display_names(m, all).take(i as int),
        decreases ids@.len() - i,
    {
        let ghost before = out@;
        out.push(display_of(current, ids, i));
        assert(texts(out@) == texts(before).push(display_name(m, all, i as int)));
        assert(display_names(m, all).take(i as int + 1) == display_names(m, all).take(
            i as int,
        ).push(display_name(m, all, i as int)));
        i += 1;
    }
    assert(display_names(m, all).take(i as int) == display_names(m, all));
    out
}

fn members(ids: &StrSet) -> (r: Vec<String>)
    ensures
        texts(r@) == ids.list(),
        ids.list() == in_order(ids@),
{
    let n: usize = ids.len();
    let mut out: Vec<String> = Vec::new();
    let mut i: usize = 0;
    while i < n
        invariant
            i <= n == ids.list().len(),
            texts(out@) == ids.list().take(i as int),
        decreases n - i,
    {
        let ghost before = out@;
        out.push(ids.at(i).clone());
        assert(texts(out@) == texts(before).push(ids.list()[i as int]));
        assert(ids.list().take(i as int + 1) == ids.list().take(i as int).push(
            ids.list()[i as int],
        ));
        i += 1;
    }
    assert(ids.list().take(i as int) == ids.list());
    out
}

/// The names that a set of ids is listed under, in order: the bare name of a
/// model, or all of its id where another model of the set has the same bare
/// name or has that name as its id.
pub fn affected_display_names(current: &Manifest, ids: &StrSet) -> (r: Vec<String>)
    ensures
        texts(r@) == sorted_texts(display_names(*current, ids.list())),
        r@.len() == ids.list().len(),
        ids.list() == in_order(ids@),
{
    let all: Vec<String> = members(ids);
    let names: Vec<String> = displays(current, &all);
    assert(texts(names@).len() == names@.len());
    assert(texts(all@).len() == all@.len());
    sort_texts(names)
}

/// The names that a list of ids is listed under: each id once, in order.
pub open spec fn listed(m: Manifest, ids: Seq<Seq<char>>) -> Seq<Seq<char>> {
    sorted_texts(display_names(m, in_order(ids.to_set())))
}

/// The names that a list of ids is listed under, an id that occurs twice
/// being listed once.
pub fn var_display_names(current: &Manifest, ids: &Vec<String>) -> (r: Vec<String>)
    ensures
        texts(r@) == listed(*current, texts(ids@)),
{
    affected_display_names(current, &id_set(ids))
}

/// The ids of a list as a set.
pub fn id_set(ids: &Vec<String>) -> (r: StrSet)
    ensures
        r@ == texts(ids@).to_set(),
{
    let ghost all = texts(ids@);
    let mut set: StrSet = StrSet::new();
    let mut i: usize = 0;
    proof {
        assert(all.take(0).to_set() =~= Set::<Seq<char>>::empty());
    }
    while i < ids.len()
        invariant
            i <= ids@.len(),
            all == texts(ids@),
            set@ == all.take(i as int).to_set(),
        decreases ids@.len() - i,
    {
        set.insert(ids[i].clone());
        proof {
            let x = all[i as int];
            let a = all.take(i as int);
            let b = all.take(i as int + 1);
            assert(b == a.push(x));
            assert forall|t: Seq<char>| b.to_set().contains(t) <==> a.to_set().insert(x).contains(
                t,
            ) by {
                if b.contains(t) {
                    let k = choose|k: int| 0 <= k < b.len() && b[k] == t;
                    if k < i {
                        assert(a[k] == t);
                    }
                }
                if a.contains(t) {
                    let k = choose|k: int| 0 <= k < a.len() && a[k] == t;
                    assert(b[k] == t);
                }
                assert(b[i as int] == x);
            }
            assert(b.to_set() =~= a.to_set().insert(x));
        }
        i += 1;
    }
    assert(all.take(i as int) == all);
    set
}

/// Law: different ids are listed under different names.
pub proof fn law_display_names_differ(m: Manifest, ids: Seq<Seq<char>>, i: int, j: int)
    requires
        0 <= i < ids.len(),
        0 <= j < ids.len(),
        ids[i] != ids[j],
    ensures
        display_name(m, ids, i) != display_name(m, ids, j),
{
    if bare_of(m, ids[i]) == bare_of(m, ids[j]) {
        assert(ids[j] != ids[i]);
        assert(bare_shared(m, ids, i));
        assert(bare_shared(m, ids, j));
    }
    if bare_of(m, ids[i]) == ids[j] {
        assert(bare_is_id(m, ids, i));
    }
    if bare_of(m, ids[j]) == ids[i] {
        assert(bare_is_id(m, ids, j));
    }
}

/// A list of names with commas between, and the names apart: one of the two
/// is empty.
pub open spec fn capped(names: Seq<Seq<char>>) -> (Seq<char>, Seq<Seq<char>>) {
    if names.len() <= CONFIG_AFFECTED_CAP {
        (joined(names, ", "@), Seq::empty())
    } else {
        (Seq::empty(), names)
    }
}

/// The names in a row with commas between, as long as they are no more than
/// the cap; else the names apart.
pub fn capped_names(names: Vec<String>) -> (r: (String, Vec<String>))
    ensures
        (r.0@, texts(r.1@)) == capped(texts(names@)),
{
    assert(texts(names@).len() == names@.len());
    if names.len() <= CONFIG_AFFECTED_CAP {
        let none: Vec<String> = Vec::new();
        assert(texts(none@) == Seq::<Seq<char>>::empty());
        (join(&names, ", "), none)
    } else {
        (String::new(), names)
    }
}

/// Law: a model is listed by its bare name, unless another of the list has the
/// same bare name or has it as its id; then by its whole id. The names come in
/// the order of the ids.
pub proof fn law_display_name(m: Manifest, ids: Seq<Seq<char>>, i: int)
    requires
        0 <= i < ids.len(),
    ensures
        display_names(m, ids).len() == ids.len(),
        display_names(m, ids)[i] == display_name(m, ids, i),
        (forall|j: int|
            0 <= j < ids.len() && #[trigger] ids[j] != ids[i] ==> bare_of(m, ids[j]) != bare_of(
                m,
                ids[i],
            ) && ids[j] != bare_of(m, ids[i])) ==> display_name(m, ids, i) == bare_of(m, ids[i]),
        (exists|j: int|
            0 <= j < ids.len() && #[trigger] ids[j] != ids[i] && (bare_of(m, ids[j]) == bare_of(
                m,
                ids[i],
            ) || ids[j] == bare_of(m, ids[i]))) ==> display_name(m, ids, i) == ids[i],
{
}

/// Law: a list of ids is listed by the names of its members, each once, in the
/// order of texts.
pub proof fn law_listed(m: Manifest, ids: Seq<Seq<char>>)
    ensures
        listed(m, ids) == sorted_texts(display_names(m, in_order(ids.to_set()))),
        listed(m, ids).len() == in_order(ids.to_set()).len(),
        listed(m, ids).to_multiset() == display_names(m, in_order(ids.to_set())).to_multiset(),
{
    crate::order::law_sorted_texts(display_names(m, in_order(ids.to_set())));
}

/// Law: up to ten names stand in a row with commas between, and none apart;
/// more stand apart, all of them, and none in a row.
pub proof fn law_capped(names: Seq<Seq<char>>)
    ensures
        names.len() <= 10 ==> capped(names) == (joined(names, ", "@), Seq::<Seq<char>>::empty()),
        names.len() > 10 ==> capped(names) == (Seq::<char>::empty(), names),
{
}

} // verus!
