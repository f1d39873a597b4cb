//! The lookup of the models that a report mentions, and of the unit tests
//! that belong to them.
use vstd::prelude::*;
use vstd::string::*;
use crate::columns::{
    clone_tests, column_meta_for_model, column_meta_text, column_test_key, column_test_payload,
    column_tests, has_column_meta, is_column_meta, is_text, keyed_column_tests, test_text,
    test_texts, tests_column_of, tests_on, ColumnMetaPayload, ColumnTestPayload, ColumnTestText,
};
use crate::domain::{
    model_called, resolve_target_model, resolve_tested_model, tested_model, Manifest, Node,
    UnitTest, UnitTestGiven,
};
use crate::order::{
    codes, items, law_key_order, law_opt_key_order, law_sorted, lemma_items_multiset,
    lemma_lex_irreflexive, lemma_lex_transitive, lemma_sorted_map, lex_lt, opt_field, opt_lt,
    push_opt_field, push_text_field, ranks, renamed,
    sort_ranked, sorted, text_field, text_less, text_lt, Ranked,
};
use crate::refs::{parse_ref_name, ref_target};
use crate::table::{keys_ascend, lemma_lookup, StrMap, StrSet};
use crate::text::{opt_text, same_text, texts};

verus! {

// ---------------------------------------------------------------------
// The node behind a ref
// ---------------------------------------------------------------------

/// `n` can be the target of a `ref` to `name`.
pub open spec fn refable(n: Node, name: Seq<char>) -> bool {
    &&& n.resource_type@ == "model"@ || n.resource_type@ == "seed"@ || n.resource_type@
        == "snapshot"@
    &&& n.ref_name() == name
}

/// Of two nodes of the same name, a `ref` stands for `a` rather than for `b`:
/// for the latest version, else for the smaller id.
pub open spec fn preferred(a: Node, b: Node) -> bool {
    if a.is_latest() != b.is_latest() {
        a.is_latest()
    } else {
        text_lt(a.id@, b.id@)
    }
}

/// The position of the node that a `ref` to `name` stands for among `nodes`:
/// the preferred one of that name, the first of those with the same id.
pub open spec fn ref_index(nodes: Seq<(Seq<char>, Node)>, name: Seq<char>) -> Option<int>
    decreases nodes.len(),
{
    if nodes.len() == 0 {
        None
    } else {
        let n = nodes.len() - 1;
        let head = ref_index(nodes.drop_last(), name);
        if !refable(nodes[n].1, name) {
            head
        } else {
            match head {
                Some(k) => if preferred(nodes[n].1, nodes[k].1) {
                    Some(n)
                } else {
                    head
                },
                None => Some(n),
            }
        }
    }
}

/// The node that a `ref` to `name` stands for.
pub open spec fn ref_node(m: Manifest, name: Seq<char>) -> Option<Node> {
    match ref_index(m.nodes.entries(), name) {
        Some(i) => Some(m.nodes.entries()[i].1),
        None => None,
    }
}

fn is_refable(node: &Node, name: &str) -> (r: bool)
    ensures
        r == refable(*node, name@),
{
    let kind: &str = node.resource_type.as_str();
    (same_text(kind, "model") || same_text(kind, "seed") || same_text(kind, "snapshot"))
        && same_text(node.bare_name(), name)
}

fn is_preferred(a: &Node, b: &Node) -> (r: bool)
    ensures
        r == preferred(*a, *b),
{
    if a.latest() != b.latest() {
        a.latest()
    } else {
        text_less(a.id.as_str(), b.id.as_str())
    }
}

/// The model, seed or snapshot that a `ref` to `ref_name` stands for. Among
/// several versions the latest one counts, else the smallest id.
pub fn resolve_given_ref_node<'m>(current: &'m Manifest, ref_name: &str) -> (r: Option<&'m Node>)
    ensures
        match r {
            Some(n) => ref_node(*current, ref_name@) == Some(*n),
            None => ref_node(*current, ref_name@) is None,
        },
{
    let ghost es = current.nodes.entries();
    let n: usize = current.nodes.len();
    let mut best: Option<usize> = None;
    let mut i: usize = 0;
    assert(es.take(0) == Seq::<(Seq<char>, Node)>::empty());
    while i < n
        invariant
            i <= n == es.len(),
            es == current.nodes.entries(),
            match best {
                Some(k) => k < i && ref_index(es.take(i as int), ref_name@) == Some(k as int),
                None => ref_index(es.take(i as int), ref_name@) is None,
            },
        decreases n - i,
    {
        assert(es.take(i as int + 1).drop_last() == es.take(i as int));
        let node: &'m Node = current.nodes.value_at(i);
        if is_refable(node, ref_name) {
            match best {
                Some(k) => {
                    if is_preferred(node, current.nodes.value_at(k)) {
                        best = Some(i);
                    }
                },
                None => {
                    best = Some(i);
                },
            }
        }
        i += 1;
    }
    assert(es.take(i as int) == es);
    match best {
        Some(k) => Some(current.nodes.value_at(k)),
        None => None,
    }
}

/// Law: a `ref` stands for a node of its name wherever there is one, and no
/// other node of that name is preferred to it: no later version where it is
/// not the latest, and no smaller id.
pub proof fn law_ref_is_preferred(nodes: Seq<(Seq<char>, Node)>, name: Seq<char>)
    ensures
        match ref_index(nodes, name) {
            Some(i) => 0 <= i < nodes.len() && refable(nodes[i].1, name) && forall|j: int|
                0 <= j < nodes.len() && refable((#[trigger] nodes[j]).1, name) ==> !preferred(
                    nodes[j].1,
                    nodes[i].1,
                ),
            None => forall|j: int|
                0 <= j < nodes.len() ==> !refable((#[trigger] nodes[j]).1, name),
        },
    decreases nodes.len(),
{
    if nodes.len() > 0 {
        let head = nodes.drop_last();
        let n = nodes.len() - 1;
        law_ref_is_preferred(head, name);
        assert forall|j: int| 0 <= j < n implies #[trigger] nodes[j] == head[j] by {}
        if refable(nodes[n].1, name) {
            let last = codes(nodes[n].1.id@);
            lemma_lex_irreflexive(last);
            if let Some(k) = ref_index(head, name) {
                let kept = codes(nodes[k].1.id@);
                assert forall|j: int|
                    0 <= j < n && refable((#[trigger] nodes[j]).1, name) && preferred(
                        nodes[n].1,
                        nodes[k].1,
                    ) implies !preferred(nodes[j].1, nodes[n].1) by {
                    assert(!preferred(head[j].1, head[k].1));
                    let other = codes(nodes[j].1.id@);
                    if text_lt(nodes[j].1.id@, nodes[n].1.id@) && text_lt(
                        nodes[n].1.id@,
                        nodes[k].1.id@,
                    ) {
                        lemma_lex_transitive(other, last, kept);
                    }
                }
            }
        }
    }
}

// ---------------------------------------------------------------------
// Unit tests by model
// ---------------------------------------------------------------------

/// The unit test `t` is a test of the node `id`.
pub open spec fn targets(m: Manifest, t: UnitTest, id: Seq<char>) -> bool {
    tested_model(m, t) matches Some(n) && n.id@ == id
}

/// The unit tests of the node `id`, in the order of their ids.
pub open spec fn tests_for(m: Manifest, id: Seq<char>) -> Seq<(Seq<char>, UnitTest)> {
    m.unit_tests.entries().filter(|e: (Seq<char>, UnitTest)| targets(m, e.1, id))
}

/// A unit test with its id.
#[derive(Debug, Clone, Copy, PartialEq)]
pub struct TestRef<'m> {
    pub id: &'m String,
    pub test: &'m UnitTest,
}

/// The ids and tests of a list.
pub open spec fn test_refs(v: Seq<TestRef<'_>>) -> Seq<(Seq<char>, UnitTest)> {
    Seq::new(v.len(), |i: int| (v[i].id@, *v[i].test))
}

/// The unit tests of the node `id`, in the order of their ids.
pub fn collect_tests<'m>(current: &'m Manifest, id: &str) -> (r: Vec<TestRef<'m>>)
    ensures
        test_refs(r@) == tests_for(*current, id@),
{
    let ghost es = current.unit_tests.entries();
    let ghost p = |e: (Seq<char>, UnitTest)| targets(*current, e.1, id@);
    let n: usize = current.unit_tests.len();
    let mut out: Vec<TestRef<'m>> = Vec::new();
    let mut i: usize = 0;
    proof {
        reveal(Seq::filter);
        assert(es.take(0) == Seq::<(Seq<char>, UnitTest)>::empty());
        assert(test_refs(out@) == es.take(0).filter(p));
    }
    while i < n
        invariant
            i <= n == es.len(),
            es == current.unit_tests.entries(),
            p == (|e: (Seq<char>, UnitTest)| targets(*current, e.1, id@)),
            test_refs(out@) == es.take(i as int).filter(p),
        decreases n - i,
    {
        let test: &'m UnitTest = current.unit_tests.value_at(i);
        proof {
            reveal(Seq::filter);
            assert(es.take(i as int + 1).drop_last() == es.take(i as int));
            assert(es.take(i as int + 1).last() == es[i as int]);
        }
        if let Some(model) = resolve_tested_model(current, test) {
            if same_text(model.id.as_str(), id) {
                let ghost before = out@;
                out.push(TestRef { id: current.unit_tests.key_at(i), test });
                assert(test_refs(out@) == test_refs(before).push(es[i as int]));
            }
        }
        i += 1;
    }
    assert(es.take(i as int) == es);
    out
}

/// `map` holds, for each of `models` that has unit tests, those tests in the
/// order of their ids.
pub open spec fn is_test_index(
    map: Map<Seq<char>, Vec<TestRef<'_>>>,
    m: Manifest,
    models: Set<Seq<char>>,
) -> bool {
    &&& forall|id: Seq<char>| #[trigger]
        map.dom().contains(id) <==> models.contains(id) && tests_for(m, id).len() > 0
    &&& forall|id: Seq<char>| #[trigger]
        map.dom().contains(id) ==> test_refs(map[id]@) == tests_for(m, id)
}

/// The unit tests of each model in scope, whether a test is itself in scope or
/// not, in the order of their ids. A model without tests has no entry.
pub fn index_tests_for_models<'m>(current: &'m Manifest, models_in_scope: &StrSet) -> (r: StrMap<
    Vec<TestRef<'m>>,
>)
    ensures
        is_test_index(r@, *current, models_in_scope@),
        forall|t: Seq<char>| models_in_scope@.contains(t) <==> models_in_scope.list().contains(t),
{
    let mut map: StrMap<Vec<TestRef<'m>>> = StrMap::new();
    let n: usize = models_in_scope.len();
    let ghost list = models_in_scope.list();
    let mut i: usize = 0;
    while i < n
        invariant
            i <= n == list.len(),
            list == models_in_scope.list(),
            forall|t: Seq<char>| models_in_scope@.contains(t) <==> list.contains(t),
            forall|id: Seq<char>| #[trigger]
                map@.dom().contains(id) <==> tests_for(*current, id).len() > 0 && exists|k: int|
                    0 <= k < i && #[trigger] list[k] == id,
            forall|id: Seq<char>| #[trigger]
                map@.dom().contains(id) ==> test_refs(map@[id]@) == tests_for(*current, id),
        decreases n - i,
    {
        let id: &String = models_in_scope.at(i);
        let tests: Vec<TestRef<'m>> = collect_tests(current, id.as_str());
        assert(test_refs(tests@).len() == tests@.len());
        let ghost before = map@;
        if tests.len() > 0 {
            map.insert(id.clone(), tests);
        }
        assert forall|x: Seq<char>| #[trigger]
            map@.dom().contains(x) <==> tests_for(*current, x).len() > 0 && exists|k: int|
                0 <= k < i + 1 && #[trigger] list[k] == x by {
            if x == id@ {
                assert(list[i as int] == x);
            } else if before.dom().contains(x) {
                let k = choose|k: int| 0 <= k < i && #[trigger] list[k] == x;
                assert(list[k] == x);
            }
        }
        i += 1;
    }
    assert forall|id: Seq<char>| #[trigger]
        map@.dom().contains(id) <==> models_in_scope@.contains(id) && tests_for(
            *current,
            id,
        ).len() > 0 by {
        if list.contains(id) {
            let k = choose|k: int| 0 <= k < list.len() && list[k] == id;
            assert(list[k] == id);
        }
    }
    map
}

/// Law: the unit tests of a model stand in the order of their ids, none of
/// them twice.
pub proof fn law_tests_ascend(m: Manifest, id: Seq<char>)
    requires
        keys_ascend(m.unit_tests.entries()),
    ensures
        keys_ascend(tests_for(m, id)),
{
    lemma_filter_ascends(
        m.unit_tests.entries(),
        |e: (Seq<char>, UnitTest)| targets(m, e.1, id),
    );
}

proof fn lemma_filter_ascends<V>(
    s: Seq<(Seq<char>, V)>,
    p: spec_fn((Seq<char>, V)) -> bool,
)
    requires
        keys_ascend(s),
    ensures
        keys_ascend(s.filter(p)),
    decreases s.len(),
{
    reveal(Seq::filter);
    if s.len() > 0 {
        let d = s.drop_last();
        assert(keys_ascend(d)) by {
            assert forall|i: int, j: int| 0 <= i < j < d.len() implies crate::order::text_lt(
                (#[trigger] d[i]).0,
                (#[trigger] d[j]).0,
            ) by {
                assert(crate::order::text_lt(s[i].0, s[j].0));
            }
        }
        lemma_filter_ascends(d, p);
        let f = d.filter(p);
        let r = s.filter(p);
        assert forall|i: int, j: int| 0 <= i < j < r.len() implies crate::order::text_lt(
            (#[trigger] r[i]).0,
            (#[trigger] r[j]).0,
        ) by {
            assert(r[i] == f[i]);
            if j < f.len() {
                assert(r[j] == f[j]);
                assert(crate::order::text_lt(f[i].0, f[j].0));
            } else {
                d.lemma_filter_contains_rev(p, f[i]);
                assert(d.contains(f[i]));
                let k = choose|k: int| 0 <= k < d.len() && d[k] == f[i];
                assert(crate::order::text_lt(s[k].0, s[s.len() - 1].0));
            }
        }
    }
}

// ---------------------------------------------------------------------
// Data tests on a whole model
// ---------------------------------------------------------------------

/// A data test on a whole model as the report names it.
#[derive(Debug, PartialEq, Eq)]
pub struct ModelTestPayload {
    pub name: String,
    pub detail: Option<String>,
}

/// The texts of a data test on a whole model.
pub open spec fn model_test_text(t: ModelTestPayload) -> (Seq<char>, Option<Seq<char>>) {
    (t.name@, opt_text(t.detail))
}

/// `node` is a data test on all of the node `attached`.
pub open spec fn tests_whole(node: Node, attached: Seq<char>) -> bool {
    &&& node.resource_type@ == "test"@
    &&& opt_text(node.attached_node) == Some(attached)
    &&& node.column_name is None
    &&& node.test_metadata is Some
}

/// The data tests on all of the node `attached` among `nodes`, with the keys
/// that order them: by what is shown of the test, then by id.
pub open spec fn keyed_model_tests(nodes: Seq<(Seq<char>, Node)>, attached: Seq<char>) -> Seq<
    (Seq<u64>, (Seq<char>, Option<Seq<char>>)),
>
    decreases nodes.len(),
{
    if nodes.len() == 0 {
        Seq::empty()
    } else {
        let head = keyed_model_tests(nodes.drop_last(), attached);
        let node = nodes.last().1;
        if tests_whole(node, attached) {
            let t = test_text(node.test_metadata->0);
            head.push(
                (
                    text_field(t.name) + opt_field(t.detail) + text_field(nodes.last().0),
                    (t.name, t.detail),
                ),
            )
        } else {
            head
        }
    }
}

/// The data tests on all of the node `attached`, in their order.
pub open spec fn model_tests(m: Manifest, attached: Seq<char>) -> Seq<
    (Seq<char>, Option<Seq<char>>),
> {
    items(sorted(keyed_model_tests(m.nodes.entries(), attached)))
}

/// The data tests on a model as a whole: by what is shown of the test, then by
/// id.
pub fn model_tests_for_model(current: &Manifest, model: &Node) -> (r: Vec<ModelTestPayload>)
    ensures
        r@.map_values(|t: ModelTestPayload| model_test_text(t)) == model_tests(
            *current,
            model.id@,
        ),
{
    let ghost es = current.nodes.entries();
    let ghost f = |t: ModelTestPayload| model_test_text(t);
    let mut found: Vec<Ranked<ModelTestPayload>> = Vec::new();
    let n: usize = current.nodes.len();
    let mut i: usize = 0;
    assert(es.take(0) == Seq::<(Seq<char>, Node)>::empty());
    assert(renamed(ranks(found@), f) == keyed_model_tests(es.take(0), model.id@));
    while i < n
        invariant
            i <= n == es.len(),
            es == current.nodes.entries(),
            f == (|t: ModelTestPayload| model_test_text(t)),
            renamed(ranks(found@), f) == keyed_model_tests(es.take(i as int), model.id@),
        decreases n - i,
    {
        let node: &Node = current.nodes.value_at(i);
        proof {
            assert(es.take(i as int + 1).drop_last() == es.take(i as int));
            assert(es.take(i as int + 1).last() == es[i as int]);
        }
        if same_text(node.resource_type.as_str(), "test") && is_text(
            &node.attached_node,
            model.id.as_str(),
        ) && node.column_name.is_none() {
            if let Some(tm) = &node.test_metadata {
                let mapped: ColumnTestPayload = column_test_payload(tm);
                let test: ModelTestPayload = ModelTestPayload {
                    name: mapped.name,
                    detail: mapped.detail,
                };
                let mut key: Vec<u64> = Vec::new();
                push_text_field(&mut key, test.name.as_str());
                push_opt_field(&mut key, &test.detail);
                push_text_field(&mut key, current.nodes.key_at(i).as_str());
                let ghost e = (key@, model_test_text(test));
                assert(key@ == text_field(test.name@) + opt_field(opt_text(test.detail))
                    + text_field(es[i as int].0));
                let ghost before = found@;
                found.push(Ranked { key, item: test });
                assert(renamed(ranks(found@), f) == renamed(ranks(before), f).push(e));
            }
        }
        i += 1;
    }
    assert(es.take(i as int) == es);
    proof {
        lemma_sorted_map(ranks(found@), f);
    }
    let order: Vec<Ranked<ModelTestPayload>> = sort_ranked(found);
    let ghost all = ranks(order@);
    let mut out: Vec<ModelTestPayload> = Vec::new();
    for x in it: order
        invariant
            it.seq() == order@,
            all == ranks(order@),
            out@.len() == it.index(),
            forall|j: int| 0 <= j < out@.len() ==> #[trigger] out@[j] == all[j].1,
    {
        out.push(x.item);
    }
    assert(out@.map_values(f) == items(renamed(all, f)));
    out
}

// ---------------------------------------------------------------------
// How the attached data tests are shared out
// ---------------------------------------------------------------------

/// `node` is a data test, with metadata, that is attached to the node `id`.
pub open spec fn is_attached_test(node: Node, id: Seq<char>) -> bool {
    &&& node.resource_type@ == "test"@
    &&& opt_text(node.attached_node) == Some(id)
    &&& node.test_metadata is Some
}

/// The entry of a data test on a whole model, with the key that orders it.
pub open spec fn whole_entry(e: (Seq<char>, Node)) -> (Seq<u64>, (Seq<char>, Node)) {
    let t = test_text(e.1.test_metadata->0);
    (text_field(t.name) + opt_field(t.detail) + text_field(e.0), e)
}

/// The entry of a data test on a column, with the key that orders it.
pub open spec fn column_test_entry(e: (Seq<char>, Node)) -> (Seq<u64>, (Seq<char>, Node)) {
    let t = test_text(e.1.test_metadata->0);
    (column_test_key(e.1.column_name->0@, t, e.0), e)
}

/// The manifest's data tests on all of the node `id`.
pub open spec fn whole_nodes(m: Manifest, id: Seq<char>) -> Seq<(Seq<char>, Node)> {
    m.nodes.entries().filter(|e: (Seq<char>, Node)| tests_whole(e.1, id))
}

/// The manifest's data tests on columns of the node `id`.
pub open spec fn column_nodes(m: Manifest, id: Seq<char>) -> Seq<(Seq<char>, Node)> {
    m.nodes.entries().filter(|e: (Seq<char>, Node)| tests_column_of(e.1, id))
}

/// The data tests on all of the node `id`, by name, detail and id.
pub open spec fn whole_order(m: Manifest, id: Seq<char>) -> Seq<(Seq<char>, Node)> {
    items(sorted(whole_nodes(m, id).map_values(|e: (Seq<char>, Node)| whole_entry(e))))
}

/// The data tests on columns of the node `id`, by column, name, values, detail
/// and id.
pub open spec fn column_order(m: Manifest, id: Seq<char>) -> Seq<(Seq<char>, Node)> {
    items(sorted(column_nodes(m, id).map_values(|e: (Seq<char>, Node)| column_test_entry(e))))
}

/// `a` comes before `b`: by name, then by detail, then by id.
pub open spec fn whole_before(a: (Seq<char>, Node), b: (Seq<char>, Node)) -> bool {
    let (s, t) = (short_text(a), short_text(b));
    text_lt(s.0, t.0) || (s.0 == t.0 && (opt_lt(s.1, t.1) || (s.1 == t.1 && text_lt(a.0, b.0))))
}

proof fn lemma_whole_before(a: (Seq<char>, Node), b: (Seq<char>, Node))
    ensures
        lex_lt(whole_entry(a).0, whole_entry(b).0) == whole_before(a, b),
{
    let (s, t) = (short_text(a), short_text(b));
    let none = Seq::<u64>::empty();
    let x = text_field(a.0);
    let y = text_field(b.0);
    assert(x + none == x);
    assert(y + none == y);
    law_key_order(a.0, b.0, none, none);
    law_opt_key_order(s.1, t.1, x, y);
    law_key_order(s.0, t.0, opt_field(s.1) + x, opt_field(t.1) + y);
    assert(whole_entry(a).0 == text_field(s.0) + (opt_field(s.1) + x));
    assert(whole_entry(b).0 == text_field(t.0) + (opt_field(t.1) + y));
}

/// The name and the detail of a data test.
pub open spec fn short_text(e: (Seq<char>, Node)) -> (Seq<char>, Option<Seq<char>>) {
    (test_text(e.1.test_metadata->0).name, test_text(e.1.test_metadata->0).detail)
}

/// The column and the texts of a data test.
pub open spec fn long_text(e: (Seq<char>, Node)) -> (Seq<char>, ColumnTestText) {
    (e.1.column_name->0@, test_text(e.1.test_metadata->0))
}

proof fn lemma_keyed_whole(nodes: Seq<(Seq<char>, Node)>, id: Seq<char>)
    ensures
        keyed_model_tests(nodes, id) == renamed(
            nodes.filter(|e: (Seq<char>, Node)| tests_whole(e.1, id)).map_values(
                |e: (Seq<char>, Node)| whole_entry(e),
            ),
            |e: (Seq<char>, Node)| short_text(e),
        ),
    decreases nodes.len(),
{
    reveal(Seq::filter);
    let p = |e: (Seq<char>, Node)| tests_whole(e.1, id);
    let key = |e: (Seq<char>, Node)| whole_entry(e);
    let f = |e: (Seq<char>, Node)| short_text(e);
    if nodes.len() > 0 {
        lemma_keyed_whole(nodes.drop_last(), id);
        let head = nodes.drop_last().filter(p);
        if p(nodes.last()) {
            assert(renamed(head.push(nodes.last()).map_values(key), f) == renamed(
                head.map_values(key),
                f,
            ).push((key(nodes.last()).0, f(nodes.last()))));
        }
    } else {
        assert(renamed(nodes.filter(p).map_values(key), f) == keyed_model_tests(nodes, id));
    }
}

proof fn lemma_keyed_columns(nodes: Seq<(Seq<char>, Node)>, id: Seq<char>)
    ensures
        keyed_column_tests(nodes, id) == renamed(
            nodes.filter(|e: (Seq<char>, Node)| tests_column_of(e.1, id)).map_values(
                |e: (Seq<char>, Node)| column_test_entry(e),
            ),
            |e: (Seq<char>, Node)| long_text(e),
        ),
    decreases nodes.len(),
{
    reveal(Seq::filter);
    let p = |e: (Seq<char>, Node)| tests_column_of(e.1, id);
    let key = |e: (Seq<char>, Node)| column_test_entry(e);
    let f = |e: (Seq<char>, Node)| long_text(e);
    if nodes.len() > 0 {
        lemma_keyed_columns(nodes.drop_last(), id);
        let head = nodes.drop_last().filter(p);
        if p(nodes.last()) {
            assert(renamed(head.push(nodes.last()).map_values(key), f) == renamed(
                head.map_values(key),
                f,
            ).push((key(nodes.last()).0, f(nodes.last()))));
        }
    } else {
        assert(renamed(nodes.filter(p).map_values(key), f) == keyed_column_tests(nodes, id));
    }
}

/// The texts of the data tests among `order` that are on the column `c`.
pub open spec fn share_of(order: Seq<(Seq<char>, Node)>, c: Seq<char>) -> Seq<ColumnTestText> {
    order.filter(|e: (Seq<char>, Node)| e.1.column_name->0@ == c).map_values(
        |e: (Seq<char>, Node)| test_text(e.1.test_metadata->0),
    )
}

proof fn lemma_tests_on(order: Seq<(Seq<char>, Node)>, c: Seq<char>)
    ensures
        tests_on(order.map_values(|e: (Seq<char>, Node)| long_text(e)), c) == share_of(order, c),
    decreases order.len(),
{
    reveal(Seq::filter);
    let long = |e: (Seq<char>, Node)| long_text(e);
    let on = |e: (Seq<char>, Node)| e.1.column_name->0@ == c;
    let text = |e: (Seq<char>, Node)| test_text(e.1.test_metadata->0);
    let all = order.map_values(long);
    if order.len() > 0 {
        lemma_tests_on(order.drop_last(), c);
        let head = order.drop_last().filter(on);
        assert(all.drop_last() == order.drop_last().map_values(long));
        assert(all.last() == long(order.last()));
        if on(order.last()) {
            assert(head.push(order.last()).map_values(text) == head.map_values(text).push(
                text(order.last()),
            ));
        }
    } else {
        assert(order.filter(on).map_values(text) == tests_on(all, c));
    }
}

/// The entries of a sorted list are those of the list, its keys ascend, and an
/// entry still has its own key.
proof fn lemma_order_of(
    nodes: Seq<(Seq<char>, Node)>,
    key: spec_fn((Seq<char>, Node)) -> (Seq<u64>, (Seq<char>, Node)),
)
    requires
        forall|e: (Seq<char>, Node)| (#[trigger] key(e)).1 == e,
    ensures
        ({
            let order = items(sorted(nodes.map_values(key)));
            &&& order.to_multiset() == nodes.to_multiset()
            &&& order.len() == nodes.len()
            &&& forall|i: int, j: int|
                0 <= i < j < order.len() ==> !lex_lt(
                    key(#[trigger] order[j]).0,
                    key(#[trigger] order[i]).0,
                )
        }),
{
    let keyed = nodes.map_values(key);
    let r = sorted(keyed);
    let order = items(r);
    law_sorted(keyed);
    lemma_items_multiset(keyed, r);
    assert(items(keyed) == nodes);
    assert forall|i: int| 0 <= i < r.len() implies (#[trigger] r[i]).0 == key(r[i].1).0 by {
        r.to_multiset_ensures();
        keyed.to_multiset_ensures();
        assert(r.contains(r[i]));
        assert(keyed.to_multiset().contains(r[i]));
        assert(keyed.contains(r[i]));
        let k = choose|k: int| 0 <= k < keyed.len() && keyed[k] == r[i];
        assert(keyed[k] == key(nodes[k]));
    }
    assert forall|i: int, j: int| 0 <= i < j < order.len() implies !lex_lt(
        key(#[trigger] order[j]).0,
        key(#[trigger] order[i]).0,
    ) by {
        assert(!lex_lt(r[j].0, r[i].0));
    }
}

/// Law: the data tests that are attached to a model are shared out between the
/// model and its columns. Each test with metadata is either one on the whole
/// model or one on a column, never both. `whole` shows each of the former
/// once, by name, detail and id, and nothing else; what is known of a column
/// shows each of the latter on that column once, and no other test.
pub proof fn law_attached_tests_shared_out(
    m: Manifest,
    model: Node,
    whole: Seq<ModelTestPayload>,
    meta: Map<Seq<char>, ColumnMetaPayload>,
)
    requires
        whole.map_values(|t: ModelTestPayload| model_test_text(t)) == model_tests(m, model.id@),
        is_column_meta(meta, model.column_descriptions@, column_tests(m, model.id@)),
    ensures
        forall|n: Node| #[trigger]
            is_attached_test(n, model.id@) <==> tests_whole(n, model.id@) || tests_column_of(
                n,
                model.id@,
            ),
        forall|n: Node| !(tests_whole(n, model.id@) && #[trigger] tests_column_of(n, model.id@)),
        whole_order(m, model.id@).to_multiset() == whole_nodes(m, model.id@).to_multiset(),
        whole.len() == whole_order(m, model.id@).len(),
        forall|i: int|
            0 <= i < whole.len() ==> model_test_text(#[trigger] whole[i]) == short_text(
                whole_order(m, model.id@)[i],
            ),
        forall|i: int, j: int|
            0 <= i < j < whole.len() ==> !whole_before(
                #[trigger] whole_order(m, model.id@)[j],
                #[trigger] whole_order(m, model.id@)[i],
            ),
        column_order(m, model.id@).to_multiset() == column_nodes(m, model.id@).to_multiset(),
        forall|c: Seq<char>| #[trigger]
            meta.dom().contains(c) ==> test_texts(meta[c].tests@) == share_of(
                column_order(m, model.id@),
                c,
            ),
        forall|c: Seq<char>|
            !(#[trigger] meta.dom().contains(c)) ==> share_of(
                column_order(m, model.id@),
                c,
            ).len() == 0,
{
    let id = model.id@;
    let es = m.nodes.entries();
    let whole_key = |e: (Seq<char>, Node)| whole_entry(e);
    let column_key = |e: (Seq<char>, Node)| column_test_entry(e);
    let short = |e: (Seq<char>, Node)| short_text(e);
    let long = |e: (Seq<char>, Node)| long_text(e);
    lemma_order_of(whole_nodes(m, id), whole_key);
    lemma_order_of(column_nodes(m, id), column_key);
    lemma_keyed_whole(es, id);
    lemma_keyed_columns(es, id);
    lemma_sorted_map(whole_nodes(m, id).map_values(whole_key), short);
    lemma_sorted_map(column_nodes(m, id).map_values(column_key), long);
    let order = whole_order(m, id);
    let texts_of = whole.map_values(|t: ModelTestPayload| model_test_text(t));
    assert(model_tests(m, id) == order.map_values(short));
    assert(texts_of.len() == whole.len());
    assert forall|i: int| 0 <= i < whole.len() implies model_test_text(#[trigger] whole[i])
        == short_text(order[i]) by {
        assert(texts_of[i] == model_tests(m, id)[i]);
    }
    assert forall|i: int, j: int| 0 <= i < j < whole.len() implies !whole_before(
        #[trigger] order[j],
        #[trigger] order[i],
    ) by {
        lemma_whole_before(order[j], order[i]);
        assert(!lex_lt(whole_key(order[j]).0, whole_key(order[i]).0));
    }
    assert(column_tests(m, id) == column_order(m, id).map_values(long));
    assert forall|c: Seq<char>| #[trigger] meta.dom().contains(c) implies test_texts(meta[c].tests@)
        == share_of(column_order(m, id), c) by {
        lemma_tests_on(column_order(m, id), c);
        assert(meta[c]@.tests == tests_on(column_tests(m, id), c));
    }
    assert forall|c: Seq<char>| !(#[trigger] meta.dom().contains(c)) implies share_of(
        column_order(m, id),
        c,
    ).len() == 0 by {
        lemma_tests_on(column_order(m, id), c);
        lemma_no_tests_on(column_tests(m, id), c);
    }
}

// ---------------------------------------------------------------------
// One model in the lookup
// ---------------------------------------------------------------------

/// A column in the lookup.
#[derive(Debug, PartialEq, Eq)]
pub struct ManifestColumnPayload {
    pub name: String,
    pub description: Option<String>,
    pub column_type: Option<String>,
    pub tests: Vec<ColumnTestPayload>,
}

/// A model in the lookup.
#[derive(Debug, PartialEq, Eq)]
pub struct ManifestNodePayload {
    pub description: Option<String>,
    pub materialized: Option<String>,
    pub tags: Vec<String>,
    pub columns: Vec<ManifestColumnPayload>,
    pub model_tests: Vec<ModelTestPayload>,
}

/// `name` is a declared column of `node`, or one of which something is known.
pub open spec fn has_column(m: Manifest, node: Node, name: Seq<char>) -> bool {
    node.columns@.dom().contains(name) || has_column_meta(
        node.column_descriptions@,
        column_tests(m, node.id@),
        name,
    )
}

/// `c` shows the column `name` of `node`.
pub open spec fn shows_column(
    c: ManifestColumnPayload,
    m: Manifest,
    node: Node,
    name: Seq<char>,
) -> bool {
    let known = column_meta_text(node.column_descriptions@, column_tests(m, node.id@), name);
    &&& c.name@ == name
    &&& opt_text(c.description) == known.description
    &&& test_texts(c.tests@) == known.tests
    &&& opt_text(c.column_type) == if node.columns@.dom().contains(name) {
        opt_text(node.columns@[name])
    } else {
        None
    }
}

/// `out` shows the columns of `node`, each once, in the order of their names.
pub open spec fn shows_columns(out: Seq<ManifestColumnPayload>, m: Manifest, node: Node) -> bool {
    &&& forall|i: int, j: int|
        0 <= i < j < out.len() ==> crate::order::text_lt(
            (#[trigger] out[i]).name@,
            (#[trigger] out[j]).name@,
        )
    &&& forall|i: int|
        0 <= i < out.len() ==> has_column(m, node, (#[trigger] out[i]).name@) && shows_column(
            out[i],
            m,
            node,
            out[i].name@,
        )
    &&& forall|name: Seq<char>| #[trigger]
        has_column(m, node, name) ==> exists|i: int|
            0 <= i < out.len() && (#[trigger] out[i]).name@ == name
}

/// `p` shows `node`.
pub open spec fn shows_node(p: ManifestNodePayload, m: Manifest, node: Node) -> bool {
    &&& p.description == node.description
    &&& p.materialized == node.materialized
    &&& texts(p.tags@) == texts(node.tags@)
    &&& shows_columns(p.columns@, m, node)
    &&& p.model_tests@.map_values(|t: ModelTestPayload| model_test_text(t)) == model_tests(
        m,
        node.id@,
    )
}

proof fn lemma_no_tests_on(all: Seq<(Seq<char>, ColumnTestText)>, c: Seq<char>)
    requires
        forall|k: int| 0 <= k < all.len() ==> (#[trigger] all[k]).0 != c,
    ensures
        tests_on(all, c) == Seq::<ColumnTestText>::empty(),
    decreases all.len(),
{
    if all.len() > 0 {
        assert(all[all.len() - 1].0 != c);
        assert forall|k: int| 0 <= k < all.drop_last().len() implies (#[trigger] all.drop_last()[k]).0
            != c by {
            assert(all[k].0 != c);
        }
        lemma_no_tests_on(all.drop_last(), c);
    }
}

fn column_entry(
    name: &str,
    column_type: Option<String>,
    meta: &StrMap<ColumnMetaPayload>,
) -> (r: ManifestColumnPayload)
    ensures
        r.name@ == name@,
        r.column_type == column_type,
        meta@.dom().contains(name@) ==> opt_text(r.description) == meta@[name@]@.description
            && test_texts(r.tests@) == meta@[name@]@.tests,
        !meta@.dom().contains(name@) ==> r.description is None && r.tests@.len() == 0,
{
    match meta.get(name) {
        Some(m) => ManifestColumnPayload {
            name: name.to_owned(),
            description: m.description.clone(),
            column_type,
            tests: clone_tests(&m.tests),
        },
        None => ManifestColumnPayload {
            name: name.to_owned(),
            description: None,
            column_type,
            tests: Vec::new(),
        },
    }
}

/// The columns of a model: the declared ones and those of which something is
/// known, in the order of their names.
fn column_entries(
    current: &Manifest,
    model: &Node,
    meta: &StrMap<ColumnMetaPayload>,
) -> (r: Vec<ManifestColumnPayload>)
    requires
        is_column_meta(meta@, model.column_descriptions@, column_tests(*current, model.id@)),
    ensures
        shows_columns(r@, *current, *model),
{
    let ghost m = *current;
    let ghost node = *model;
    let ghost tests = column_tests(m, node.id@);
    let mut columns: StrMap<ManifestColumnPayload> = StrMap::new();
    let ghost cs = model.columns.entries();
    let n: usize = model.columns.len();
    let mut i: usize = 0;
    while i < n
        invariant
            i <= n == cs.len(),
            cs == model.columns.entries(),
            m == *current,
            node == *model,
            tests == column_tests(m, node.id@),
            is_column_meta(meta@, node.column_descriptions@, tests),
            forall|c: Seq<char>| #[trigger]
                columns@.dom().contains(c) <==> exists|k: int|
                    0 <= k < i && (#[trigger] cs[k]).0 == c,
            forall|c: Seq<char>| #[trigger]
                columns@.dom().contains(c) ==> shows_column(columns@[c], m, node, c),
        decreases n - i,
    {
        let name: &String = model.columns.key_at(i);
        let data_type: &Option<String> = model.columns.value_at(i);
        let entry: ManifestColumnPayload = column_entry(name.as_str(), data_type.clone(), meta);
        proof {
            if !meta@.dom().contains(name@) {
                assert(!has_column_meta(node.column_descriptions@, tests, name@));
                lemma_no_tests_on(tests, name@);
                assert(test_texts(entry.tests@) == Seq::<ColumnTestText>::empty());
            }
            assert(shows_column(entry, m, node, name@));
        }
        let ghost before = columns@;
        columns.insert(name.clone(), entry);
        assert forall|c: Seq<char>| #[trigger]
            columns@.dom().contains(c) <==> exists|k: int| 0 <= k < i + 1 && (#[trigger] cs[k]).0
                == c by {
            if c == name@ {
                assert(cs[i as int].0 == c);
            } else if before.dom().contains(c) {
                let k = choose|k: int| 0 <= k < i && (#[trigger] cs[k]).0 == c;
                assert(cs[k].0 == c);
            }
        }
        i += 1;
    }
    assert forall|c: Seq<char>| #[trigger]
        columns@.dom().contains(c) <==> node.columns@.dom().contains(c) by {
        if node.columns@.dom().contains(c) {
            let k = choose|k: int| 0 <= k < cs.len() && (#[trigger] cs[k]).0 == c;
            assert(cs[k].0 == c);
        }
    }
    let ghost ms = meta.entries();
    let k_n: usize = meta.len();
    let mut k: usize = 0;
    while k < k_n
        invariant
            k <= k_n == ms.len(),
            ms == meta.entries(),
            m == *current,
            node == *model,
            tests == column_tests(m, node.id@),
            is_column_meta(meta@, node.column_descriptions@, tests),
            forall|c: Seq<char>| #[trigger]
                columns@.dom().contains(c) <==> node.columns@.dom().contains(c) || exists|j: int|
                    0 <= j < k && (#[trigger] ms[j]).0 == c,
            forall|c: Seq<char>| #[trigger]
                columns@.dom().contains(c) ==> shows_column(columns@[c], m, node, c),
        decreases k_n - k,
    {
        let name: &String = meta.key_at(k);
        let ghost before = columns@;
        if !columns.contains_key(name.as_str()) {
            let entry: ManifestColumnPayload = column_entry(name.as_str(), None, meta);
            assert(shows_column(entry, m, node, name@));
            columns.insert(name.clone(), entry);
        }
        assert forall|c: Seq<char>| #[trigger]
            columns@.dom().contains(c) <==> node.columns@.dom().contains(c) || exists|j: int|
                0 <= j < k + 1 && (#[trigger] ms[j]).0 == c by {
            if c == name@ {
                assert(ms[k as int].0 == c);
            } else if before.dom().contains(c) && !node.columns@.dom().contains(c) {
                let j = choose|j: int| 0 <= j < k && (#[trigger] ms[j]).0 == c;
                assert(ms[j].0 == c);
            }
        }
        k += 1;
    }
    assert forall|c: Seq<char>| #[trigger]
        columns@.dom().contains(c) <==> has_column(m, node, c) by {
        if meta@.dom().contains(c) {
            let j = choose|j: int| 0 <= j < ms.len() && (#[trigger] ms[j]).0 == c;
            assert(ms[j].0 == c);
        }
        if columns@.dom().contains(c) && !node.columns@.dom().contains(c) {
            let j = choose|j: int| 0 <= j < ms.len() && (#[trigger] ms[j]).0 == c;
            lemma_meta_key(meta, j);
            assert(meta@.dom().contains(c));
        }
    }
    let ghost all = columns.entries();
    let ghost table = columns@;
    let rows: Vec<(String, ManifestColumnPayload)> = columns.into_entries();
    let mut out: Vec<ManifestColumnPayload> = Vec::new();
    for e in it: rows
        invariant
            it.seq() == rows@,
            out@.len() == it.index(),
            forall|j: int| 0 <= j < out@.len() ==> #[trigger] out@[j] == rows@[j].1,
    {
        out.push(e.1);
    }
    proof {
        assert forall|j: int| 0 <= j < out@.len() implies (#[trigger] out@[j]).name@ == all[j].0
            && table.dom().contains(all[j].0) && shows_column(out@[j], m, node, out@[j].name@) by {
            assert(rows@[j].1 == all[j].1);
            lemma_lookup(all, j);
            assert(table[all[j].0] == all[j].1);
        }
        assert forall|a: int, b: int| 0 <= a < b < out@.len() implies crate::order::text_lt(
            (#[trigger] out@[a]).name@,
            (#[trigger] out@[b]).name@,
        ) by {
            assert(crate::order::text_lt(all[a].0, all[b].0));
        }
        assert forall|name: Seq<char>| #[trigger] has_column(m, node, name) implies exists|j: int|
            0 <= j < out@.len() && (#[trigger] out@[j]).name@ == name by {
            assert(table.dom().contains(name));
            let j = choose|j: int| 0 <= j < all.len() && (#[trigger] all[j]).0 == name;
            assert(out@[j].name@ == name);
        }
    }
    out
}

proof fn lemma_meta_key(meta: &StrMap<ColumnMetaPayload>, j: int)
    requires
        0 <= j < meta.entries().len(),
    ensures
        meta@.dom().contains(meta.entries()[j].0),
{
    assert(meta.entries()[j].0 == meta.entries()[j].0);
}

/// A model in the lookup: what is declared of it and of its columns, and the
/// data tests on it.
pub fn manifest_node_payload(current: &Manifest, model: &Node) -> (r: ManifestNodePayload)
    ensures
        shows_node(r, *current, *model),
{
    let meta: StrMap<ColumnMetaPayload> = column_meta_for_model(current, model);
    let tags: Vec<String> = model.tags.clone();
    assert(texts(tags@) == texts(model.tags@));
    ManifestNodePayload {
        description: model.description.clone(),
        materialized: model.materialized.clone(),
        tags,
        columns: column_entries(current, model, &meta),
        model_tests: model_tests_for_model(current, model),
    }
}

/// There is something to show of `node`.
pub open spec fn has_context(m: Manifest, node: Node) -> bool {
    ||| node.description is Some
    ||| node.materialized is Some
    ||| node.tags@.len() > 0
    ||| exists|name: Seq<char>| #[trigger] has_column(m, node, name)
    ||| model_tests(m, node.id@).len() > 0
}

/// Whether `p` shows anything.
fn shows_anything(p: &ManifestNodePayload) -> (r: bool)
    ensures
        r == (p.description is Some || p.materialized is Some || p.tags@.len() > 0
            || p.columns@.len() > 0 || p.model_tests@.len() > 0),
{
    p.description.is_some() || p.materialized.is_some() || p.tags.len() > 0 || p.columns.len() > 0
        || p.model_tests.len() > 0
}

proof fn lemma_shows_anything(p: ManifestNodePayload, m: Manifest, node: Node)
    requires
        shows_node(p, m, node),
    ensures
        (p.description is Some || p.materialized is Some || p.tags@.len() > 0 || p.columns@.len()
            > 0 || p.model_tests@.len() > 0) == has_context(m, node),
{
    assert(texts(p.tags@).len() == p.tags@.len());
    assert(texts(node.tags@).len() == node.tags@.len());
    if p.columns@.len() > 0 {
        assert(has_column(m, node, p.columns@[0].name@));
    }
    if exists|name: Seq<char>| #[trigger] has_column(m, node, name) {
        let name = choose|name: Seq<char>| #[trigger] has_column(m, node, name);
        assert(p.columns@.len() > 0);
    }
}

// ---------------------------------------------------------------------
// The lookup
// ---------------------------------------------------------------------

/// The models that the givens refer to, in order.
pub open spec fn given_models(m: Manifest, given: Seq<UnitTestGiven>) -> Seq<Node>
    decreases given.len(),
{
    if given.len() == 0 {
        Seq::empty()
    } else {
        let head = given_models(m, given.drop_last());
        match ref_target(given.last().input@) {
            Some(name) => match model_called(m, name) {
                Some(n) => head.push(n),
                None => head,
            },
            None => head,
        }
    }
}

/// The models that the givens of the tests refer to, in order.
pub open spec fn upstream_models(m: Manifest, tests: Seq<(Seq<char>, UnitTest)>) -> Seq<Node>
    decreases tests.len(),
{
    if tests.len() == 0 {
        Seq::empty()
    } else {
        upstream_models(m, tests.drop_last()) + given_models(m, tests.last().1.given@)
    }
}

/// The models that a report mentions, in order: each model in scope, followed
/// by the models that its unit tests, as `tests` gives them, refer to.
pub open spec fn mentioned(
    m: Manifest,
    scope: Seq<Seq<char>>,
    tests: spec_fn(Seq<char>) -> Seq<(Seq<char>, UnitTest)>,
) -> Seq<Node>
    decreases scope.len(),
{
    if scope.len() == 0 {
        Seq::empty()
    } else {
        let head = mentioned(m, scope.drop_last(), tests);
        let id = scope.last();
        if m.nodes@.dom().contains(id) {
            head.push(m.nodes@[id]) + upstream_models(m, tests(id))
        } else {
            head
        }
    }
}

/// The unit tests that an index holds for the node `id`.
pub open spec fn tests_in(map: Map<Seq<char>, Vec<TestRef<'_>>>, id: Seq<char>) -> Seq<
    (Seq<char>, UnitTest),
> {
    if map.dom().contains(id) {
        test_refs(map[id]@)
    } else {
        Seq::empty()
    }
}

/// What is mentioned depends on the tests of the models in scope alone.
pub proof fn lemma_mentioned_by_scope(
    m: Manifest,
    scope: Seq<Seq<char>>,
    f: spec_fn(Seq<char>) -> Seq<(Seq<char>, UnitTest)>,
    g: spec_fn(Seq<char>) -> Seq<(Seq<char>, UnitTest)>,
)
    requires
        forall|i: int| 0 <= i < scope.len() ==> f(#[trigger] scope[i]) == g(scope[i]),
    ensures
        mentioned(m, scope, f) == mentioned(m, scope, g),
    decreases scope.len(),
{
    if scope.len() > 0 {
        let head = scope.drop_last();
        assert forall|i: int| 0 <= i < head.len() implies f(#[trigger] head[i]) == g(head[i]) by {
            assert(head[i] == scope[i]);
        }
        lemma_mentioned_by_scope(m, head, f, g);
        assert(f(scope[scope.len() - 1]) == g(scope[scope.len() - 1]));
    }
}

/// The models by their bare names; of two that share one the later counts.
pub open spec fn by_bare(nodes: Seq<Node>) -> Map<Seq<char>, Node>
    decreases nodes.len(),
{
    if nodes.len() == 0 {
        Map::empty()
    } else {
        by_bare(nodes.drop_last()).insert(nodes.last().ref_name(), nodes.last())
    }
}

proof fn lemma_by_bare_push(nodes: Seq<Node>, n: Node)
    ensures
        by_bare(nodes.push(n)) == by_bare(nodes).insert(n.ref_name(), n),
{
    assert(nodes.push(n).drop_last() == nodes);
}

/// The values of a table of references.
pub open spec fn deref_map(t: Map<Seq<char>, &Node>) -> Map<Seq<char>, Node> {
    Map::new(|k: Seq<char>| t.dom().contains(k), |k: Seq<char>| *t[k])
}

/// `map` is the lookup of the models that a report mentions, the unit tests of
/// each model in scope being what `tests` gives.
pub open spec fn is_lookup(
    map: Map<Seq<char>, ManifestNodePayload>,
    m: Manifest,
    scope: Seq<Seq<char>>,
    tests: spec_fn(Seq<char>) -> Seq<(Seq<char>, UnitTest)>,
) -> bool {
    let nodes = by_bare(mentioned(m, scope, tests));
    &&& forall|k: Seq<char>| #[trigger]
        map.dom().contains(k) <==> nodes.dom().contains(k) && has_context(m, nodes[k])
    &&& forall|k: Seq<char>| #[trigger]
        map.dom().contains(k) ==> shows_node(map[k], m, nodes[k])
}

fn add_upstreams<'m>(
    current: &'m Manifest,
    tests: &Vec<TestRef<'m>>,
    referenced: &mut StrMap<&'m Node>,
    nodes: Ghost<Seq<Node>>,
)
    requires
        deref_map(old(referenced)@) == by_bare(nodes@),
    ensures
        deref_map(final(referenced)@) == by_bare(
            nodes@ + upstream_models(*current, test_refs(tests@)),
        ),
{
    let ghost all = test_refs(tests@);
    let ghost start = nodes@;
    let mut i: usize = 0;
    proof {
        assert(all.take(0) == Seq::<(Seq<char>, UnitTest)>::empty());
        assert(start + upstream_models(*current, all.take(0)) == start);
    }
    while i < tests.len()
        invariant
            i <= tests@.len(),
            all == test_refs(tests@),
            deref_map(referenced@) == by_bare(start + upstream_models(*current, all.take(i as int))),
        decreases tests@.len() - i,
    {
        let test: &'m UnitTest = tests[i].test;
        let ghost head = start + upstream_models(*current, all.take(i as int));
        let mut k: usize = 0;
        proof {
            assert(test.given@.take(0) == Seq::<UnitTestGiven>::empty());
            assert(head + given_models(*current, test.given@.take(0)) == head);
        }
        while k < test.given.len()
            invariant
                k <= test.given@.len(),
                deref_map(referenced@) == by_bare(
                    head + given_models(*current, test.given@.take(k as int)),
                ),
            decreases test.given@.len() - k,
        {
            let ghost done = given_models(*current, test.given@.take(k as int));
            proof {
                assert(test.given@.take(k as int + 1).drop_last() == test.given@.take(k as int));
                assert(test.given@.take(k as int + 1).last() == test.given@[k as int]);
            }
            if let Some(name) = parse_ref_name(test.given[k].input.as_str()) {
                if let Some(upstream) = resolve_target_model(current, name) {
                    let ghost before = referenced@;
                    let key: String = upstream.bare_name().to_owned();
                    referenced.insert(key, upstream);
                    proof {
                        lemma_by_bare_push(head + done, *upstream);
                        assert((head + done).push(*upstream) == head + done.push(*upstream));
                        assert(deref_map(referenced@) =~= deref_map(before).insert(
                            upstream.ref_name(),
                            *upstream,
                        ));
                    }
                }
            }
            k += 1;
        }
        proof {
            assert(test.given@.take(k as int) == test.given@);
            assert(all.take(i as int + 1).drop_last() == all.take(i as int));
            assert(all.take(i as int + 1).last().1 == *test);
            assert(head + given_models(*current, test.given@) == start + (upstream_models(
                *current,
                all.take(i as int),
            ) + given_models(*current, test.given@)));
        }
        i += 1;
    }
    assert(all.take(i as int) == all);
}

/// The lookup of the models that a report mentions, by their bare names: the
/// models in scope and those that their unit tests, as `model_tests`
/// has them, refer to. A model of which there is nothing to show is left out.
pub fn build_manifest_nodes<'m>(
    current: &'m Manifest,
    models_in_scope: &StrSet,
    model_tests: &StrMap<Vec<TestRef<'m>>>,
) -> (r: StrMap<ManifestNodePayload>)
    ensures
        is_lookup(
            r@,
            *current,
            models_in_scope.list(),
            |id: Seq<char>| tests_in(model_tests@, id),
        ),
{
    let ghost tests = |id: Seq<char>| tests_in(model_tests@, id);
    let mut referenced: StrMap<&'m Node> = StrMap::new();
    let ghost list = models_in_scope.list();
    let n: usize = models_in_scope.len();
    let mut i: usize = 0;
    proof {
        assert(list.take(0) == Seq::<Seq<char>>::empty());
        assert(deref_map(referenced@) =~= by_bare(mentioned(*current, list.take(0), tests)));
    }
    while i < n
        invariant
            i <= n == list.len(),
            list == models_in_scope.list(),
            tests == (|id: Seq<char>| tests_in(model_tests@, id)),
            deref_map(referenced@) == by_bare(mentioned(*current, list.take(i as int), tests)),
        decreases n - i,
    {
        let id: &String = models_in_scope.at(i);
        let ghost done = mentioned(*current, list.take(i as int), tests);
        proof {
            assert(list.take(i as int + 1).drop_last() == list.take(i as int));
            assert(list.take(i as int + 1).last() == id@);
            assert(list[i as int] == id@);
        }
        if let Some(model) = current.nodes.get(id.as_str()) {
            let ghost before = referenced@;
            let key: String = model.bare_name().to_owned();
            referenced.insert(key, model);
            proof {
                lemma_by_bare_push(done, *model);
                assert(deref_map(referenced@) =~= deref_map(before).insert(
                    model.ref_name(),
                    *model,
                ));
            }
            match model_tests.get(id.as_str()) {
                Some(found) => {
                    add_upstreams(current, found, &mut referenced, Ghost(done.push(*model)));
                },
                None => {
                    assert(done.push(*model) + upstream_models(*current, tests(id@)) == done.push(
                        *model,
                    ));
                },
            }
        }
        i += 1;
    }
    assert(list.take(i as int) == list);
    let ghost nodes = by_bare(mentioned(*current, list, tests));
    let ghost rs = referenced.entries();
    let count: usize = referenced.len();
    let mut out: StrMap<ManifestNodePayload> = StrMap::new();
    let mut k: usize = 0;
    while k < count
        invariant
            k <= count == rs.len(),
            rs == referenced.entries(),
            keys_ascend(rs),
            deref_map(referenced@) == nodes,
            forall|x: Seq<char>| #[trigger]
                out@.dom().contains(x) <==> nodes.dom().contains(x) && has_context(
                    *current,
                    nodes[x],
                ) && exists|j: int| 0 <= j < k && (#[trigger] rs[j]).0 == x,
            forall|x: Seq<char>| #[trigger]
                out@.dom().contains(x) ==> shows_node(out@[x], *current, nodes[x]),
        decreases count - k,
    {
        let name: &String = referenced.key_at(k);
        let node: &'m Node = *referenced.value_at(k);
        proof {
            assert(deref_map(referenced@).dom().contains(name@));
            assert(nodes[name@] == *node);
        }
        let payload: ManifestNodePayload = manifest_node_payload(current, node);
        proof {
            lemma_shows_anything(payload, *current, *node);
        }
        let ghost before = out@;
        if shows_anything(&payload) {
            out.insert(name.clone(), payload);
        }
        assert forall|x: Seq<char>| #[trigger]
            out@.dom().contains(x) <==> nodes.dom().contains(x) && has_context(*current, nodes[x])
                && exists|j: int| 0 <= j < k + 1 && (#[trigger] rs[j]).0 == x by {
            if x == name@ {
                assert(rs[k as int].0 == x);
                if before.dom().contains(x) {
                    let j = choose|j: int| 0 <= j < k && (#[trigger] rs[j]).0 == x;
                    crate::order::lemma_lex_irreflexive(crate::order::codes(x));
                    assert(crate::order::text_lt(rs[j].0, rs[k as int].0));
                }
            } else if before.dom().contains(x) {
                let j = choose|j: int| 0 <= j < k && (#[trigger] rs[j]).0 == x;
                assert(rs[j].0 == x);
            }
        }
        k += 1;
    }
    assert forall|x: Seq<char>| #[trigger]
        out@.dom().contains(x) <==> nodes.dom().contains(x) && has_context(*current, nodes[x]) by {
        if nodes.dom().contains(x) {
            assert(referenced@.dom().contains(x));
            let j = choose|j: int| 0 <= j < rs.len() && (#[trigger] rs[j]).0 == x;
            assert(rs[j].0 == x);
        }
    }
    out
}

// ---------------------------------------------------------------------
// Laws on the lookup
// ---------------------------------------------------------------------

/// Law: a `ref` can stand for models, seeds and snapshots of its name. Of two
/// of them the latest version is preferred to one that is not; else the one
/// with the smaller id.
pub proof fn law_ref_candidates(a: Node, b: Node, name: Seq<char>)
    ensures
        refable(a, name) <==> (a.resource_type@ == "model"@ || a.resource_type@ == "seed"@
            || a.resource_type@ == "snapshot"@) && a.ref_name() == name,
        a.is_latest() && !b.is_latest() ==> preferred(a, b),
        !a.is_latest() && b.is_latest() ==> !preferred(a, b),
        a.is_latest() == b.is_latest() ==> preferred(a, b) == text_lt(a.id@, b.id@),
{
}

/// Law: the unit tests of a node are those of the manifest that are on it, in
/// the order of the manifest.
pub proof fn law_tests_for(m: Manifest, id: Seq<char>, i: int)
    requires
        0 <= i < m.unit_tests.entries().len(),
    ensures
        ({
            let e = m.unit_tests.entries()[i];
            let on = tested_model(m, e.1) is Some && tested_model(m, e.1)->0.id@ == id;
            &&& on ==> tests_for(m, id).contains(e)
            &&& tests_for(m, id) == m.unit_tests.entries().filter(
                |e: (Seq<char>, UnitTest)|
                    tested_model(m, e.1) is Some && tested_model(m, e.1)->0.id@ == id,
            )
        }),
{
    let p = |e: (Seq<char>, UnitTest)| targets(m, e.1, id);
    let q = |e: (Seq<char>, UnitTest)|
        tested_model(m, e.1) is Some && tested_model(m, e.1)->0.id@ == id;
    assert(p =~= q);
    let es = m.unit_tests.entries();
    if q(es[i]) {
        es.lemma_filter_contains(q, i);
    }
}

/// Law: the index has an entry for exactly the models in scope that have unit
/// tests, and each entry holds all tests of its model, in order.
pub proof fn law_test_index(
    map: Map<Seq<char>, Vec<TestRef<'_>>>,
    m: Manifest,
    models: Set<Seq<char>>,
    id: Seq<char>,
)
    requires
        is_test_index(map, m, models),
    ensures
        map.dom().contains(id) <==> models.contains(id) && tests_for(m, id).len() > 0,
        map.dom().contains(id) ==> map[id]@.len() == tests_for(m, id).len() && forall|k: int|
            0 <= k < map[id]@.len() ==> (#[trigger] map[id]@[k]).id@ == tests_for(m, id)[k].0
                && *map[id]@[k].test == tests_for(m, id)[k].1,
{
    if map.dom().contains(id) {
        let refs = test_refs(map[id]@);
        assert(refs == tests_for(m, id));
        assert(refs.len() == map[id]@.len());
        assert forall|k: int| 0 <= k < map[id]@.len() implies (#[trigger] map[id]@[k]).id@
            == tests_for(m, id)[k].0 && *map[id]@[k].test == tests_for(m, id)[k].1 by {
            assert(refs[k] == (map[id]@[k].id@, *map[id]@[k].test));
        }
    }
}

/// Law: a data test is on a whole node where it is attached to it, has
/// metadata and names no column; the tests on a node are taken one by one from
/// the manifest and put in order.
pub proof fn law_tests_whole(
    nodes: Seq<(Seq<char>, Node)>,
    key: Seq<char>,
    n: Node,
    id: Seq<char>,
    m: Manifest,
    t: ModelTestPayload,
)
    ensures
        tests_whole(n, id) <==> n.resource_type@ == "test"@ && n.attached_node is Some
            && n.attached_node->0@ == id && n.column_name is None && n.test_metadata is Some,
        keyed_model_tests(Seq::empty(), id).len() == 0,
        !tests_whole(n, id) ==> keyed_model_tests(nodes.push((key, n)), id) == keyed_model_tests(
            nodes,
            id,
        ),
        tests_whole(n, id) ==> keyed_model_tests(nodes.push((key, n)), id) == keyed_model_tests(
            nodes,
            id,
        ).push(
            (
                text_field(test_text(n.test_metadata->0).name) + opt_field(
                    test_text(n.test_metadata->0).detail,
                ) + text_field(key),
                (test_text(n.test_metadata->0).name, test_text(n.test_metadata->0).detail),
            ),
        ),
        model_tests(m, id) == items(sorted(keyed_model_tests(m.nodes.entries(), id))),
        model_test_text(t).0 == t.name@,
        model_test_text(t).1 == opt_text(t.detail),
{
    assert(nodes.push((key, n)).drop_last() == nodes);
}

/// Law: a model in the lookup is shown with its description, how it is
/// materialized and its tags; with each column that it declares or of which
/// something is known, once and in the order of their names, with type,
/// description and tests; and with the data tests on it as a whole.
pub proof fn law_node_shown(p: ManifestNodePayload, m: Manifest, node: Node, c: Seq<char>)
    requires
        shows_node(p, m, node),
    ensures
        p.description == node.description,
        p.materialized == node.materialized,
        texts(p.tags@) == texts(node.tags@),
        p.model_tests@.map_values(|t: ModelTestPayload| model_test_text(t)) == model_tests(
            m,
            node.id@,
        ),
        (exists|i: int| 0 <= i < p.columns@.len() && (#[trigger] p.columns@[i]).name@ == c)
            <==> node.columns@.dom().contains(c) || has_column_meta(
            node.column_descriptions@,
            column_tests(m, node.id@),
            c,
        ),
        forall|i: int, j: int|
            0 <= i < j < p.columns@.len() ==> text_lt(
                (#[trigger] p.columns@[i]).name@,
                (#[trigger] p.columns@[j]).name@,
            ),
        forall|i: int|
            0 <= i < p.columns@.len() ==> {
                let x = #[trigger] p.columns@[i];
                let known = column_meta_text(
                    node.column_descriptions@,
                    column_tests(m, node.id@),
                    x.name@,
                );
                &&& opt_text(x.description) == known.description
                &&& test_texts(x.tests@) == known.tests
                &&& node.columns@.dom().contains(x.name@) ==> opt_text(x.column_type) == opt_text(
                    node.columns@[x.name@],
                )
                &&& !node.columns@.dom().contains(x.name@) ==> x.column_type is None
            },
{
    assert forall|i: int| 0 <= i < p.columns@.len() implies has_column(
        m,
        node,
        (#[trigger] p.columns@[i]).name@,
    ) && shows_column(p.columns@[i], m, node, p.columns@[i].name@) by {}
    if node.columns@.dom().contains(c) || has_column_meta(
        node.column_descriptions@,
        column_tests(m, node.id@),
        c,
    ) {
        assert(has_column(m, node, c));
    }
}

/// Law: there is something to show of a model where it has a description, a
/// materialization, a tag, a column or a data test on it as a whole.
pub proof fn law_has_context(m: Manifest, node: Node)
    ensures
        node.description is Some ==> has_context(m, node),
        node.materialized is Some ==> has_context(m, node),
        node.tags@.len() > 0 ==> has_context(m, node),
        model_tests(m, node.id@).len() > 0 ==> has_context(m, node),
        forall|c: Seq<char>| #[trigger] node.columns@.dom().contains(c) ==> has_context(m, node),
        forall|c: Seq<char>| #[trigger]
            has_column_meta(node.column_descriptions@, column_tests(m, node.id@), c)
                ==> has_context(m, node),
        node.description is None && node.materialized is None && node.tags@.len() == 0
            && model_tests(m, node.id@).len() == 0 && (forall|c: Seq<char>|
            !#[trigger] node.columns@.dom().contains(c)) && (forall|c: Seq<char>|
            !#[trigger] has_column_meta(node.column_descriptions@, column_tests(m, node.id@), c))
            ==> !has_context(m, node),
{
    assert forall|c: Seq<char>| #[trigger] node.columns@.dom().contains(c) implies has_context(
        m,
        node,
    ) by {
        assert(has_column(m, node, c));
    }
    assert forall|c: Seq<char>| #[trigger]
        has_column_meta(node.column_descriptions@, column_tests(m, node.id@), c) implies has_context(
        m,
        node,
    ) by {
        assert(has_column(m, node, c));
    }
}

/// The given `g` refers to the model `n`.
pub open spec fn refers_to_model(m: Manifest, g: UnitTestGiven, n: Node) -> bool {
    ref_target(g.input@) is Some && model_called(m, ref_target(g.input@)->0) == Some(n)
}

/// One of the givens of one of the tests refers to the model `n`.
pub open spec fn some_given_refers(
    m: Manifest,
    tests: Seq<(Seq<char>, UnitTest)>,
    n: Node,
) -> bool {
    exists|t: int, g: int|
        0 <= t < tests.len() && 0 <= g < tests[t].1.given@.len() && refers_to_model(
            m,
            #[trigger] tests[t].1.given@[g],
            n,
        )
}

proof fn lemma_given_models(m: Manifest, given: Seq<UnitTestGiven>, n: Node)
    ensures
        given_models(m, given).contains(n) <==> exists|g: int|
            0 <= g < given.len() && refers_to_model(m, #[trigger] given[g], n),
    decreases given.len(),
{
    if given.len() > 0 {
        let d = given.drop_last();
        let head = given_models(m, d);
        let all = given_models(m, given);
        lemma_given_models(m, d, n);
        if all.contains(n) {
            let x = choose|x: int| 0 <= x < all.len() && all[x] == n;
            if x < head.len() {
                assert(head[x] == n);
                assert(head.contains(n));
                let g = choose|g: int| 0 <= g < d.len() && refers_to_model(m, #[trigger] d[g], n);
                assert(given[g] == d[g]);
            } else {
                assert(refers_to_model(m, given[given.len() - 1], n));
            }
        }
        if exists|g: int| 0 <= g < given.len() && refers_to_model(m, #[trigger] given[g], n) {
            let g = choose|g: int| 0 <= g < given.len() && refers_to_model(m, #[trigger] given[g], n);
            if g < d.len() {
                assert(d[g] == given[g]);
                assert(head.contains(n));
                let x = choose|x: int| 0 <= x < head.len() && head[x] == n;
                assert(all[x] == n);
            } else {
                assert(all[head.len() as int] == n);
            }
        }
    }
}

proof fn lemma_upstream_models(m: Manifest, tests: Seq<(Seq<char>, UnitTest)>, n: Node)
    ensures
        upstream_models(m, tests).contains(n) <==> some_given_refers(m, tests, n),
    decreases tests.len(),
{
    if tests.len() > 0 {
        let d = tests.drop_last();
        let last = tests.last().1.given@;
        let head = upstream_models(m, d);
        let tail = given_models(m, last);
        let all = upstream_models(m, tests);
        lemma_upstream_models(m, d, n);
        lemma_given_models(m, last, n);
        assert(tests[tests.len() - 1] == tests.last());
        if all.contains(n) {
            let x = choose|x: int| 0 <= x < all.len() && all[x] == n;
            if x < head.len() {
                assert(head[x] == n);
                assert(head.contains(n));
                let (t, g) = choose|t: int, g: int|
                    0 <= t < d.len() && 0 <= g < d[t].1.given@.len() && refers_to_model(
                        m,
                        #[trigger] d[t].1.given@[g],
                        n,
                    );
                assert(tests[t] == d[t]);
                assert(refers_to_model(m, tests[t].1.given@[g], n));
            } else {
                assert(tail[x - head.len()] == n);
                assert(tail.contains(n));
                let g = choose|g: int|
                    0 <= g < last.len() && refers_to_model(m, #[trigger] last[g], n);
                assert(refers_to_model(m, tests[tests.len() - 1].1.given@[g], n));
            }
        }
        if some_given_refers(m, tests, n) {
            let (t, g) = choose|t: int, g: int|
                0 <= t < tests.len() && 0 <= g < tests[t].1.given@.len() && refers_to_model(
                    m,
                    #[trigger] tests[t].1.given@[g],
                    n,
                );
            if t < d.len() {
                assert(d[t] == tests[t]);
                assert(refers_to_model(m, d[t].1.given@[g], n));
                assert(some_given_refers(m, d, n));
                let x = choose|x: int| 0 <= x < head.len() && head[x] == n;
                assert(all[x] == n);
            } else {
                assert(refers_to_model(m, last[g], n));
                assert(tail.contains(n));
                let x = choose|x: int| 0 <= x < tail.len() && tail[x] == n;
                assert(all[head.len() + x] == n);
            }
        }
    }
}

/// Law: a report mentions each node in scope and each model that some given of
/// some unit test of a node in scope refers to, and no other.
pub proof fn law_mentioned(
    m: Manifest,
    scope: Seq<Seq<char>>,
    tests: spec_fn(Seq<char>) -> Seq<(Seq<char>, UnitTest)>,
    n: Node,
)
    ensures
        mentioned(m, scope, tests).contains(n) <==> exists|k: int|
            0 <= k < scope.len() && m.nodes@.dom().contains(#[trigger] scope[k]) && (
            m.nodes@[scope[k]] == n || some_given_refers(m, tests(scope[k]), n)),
    decreases scope.len(),
{
    if scope.len() > 0 {
        let d = scope.drop_last();
        let id = scope.last();
        let head = mentioned(m, d, tests);
        let all = mentioned(m, scope, tests);
        law_mentioned(m, d, tests, n);
        lemma_upstream_models(m, tests(id), n);
        assert(scope[scope.len() - 1] == id);
        let ups = upstream_models(m, tests(id));
        if all.contains(n) {
            let x = choose|x: int| 0 <= x < all.len() && all[x] == n;
            if x < head.len() {
                assert(head[x] == n);
                assert(head.contains(n));
                let k = choose|k: int|
                    0 <= k < d.len() && m.nodes@.dom().contains(#[trigger] d[k]) && (m.nodes@[d[k]]
                        == n || some_given_refers(m, tests(d[k]), n));
                assert(scope[k] == d[k]);
            } else if x > head.len() {
                assert(ups[x - head.len() - 1] == n);
                assert(ups.contains(n));
            }
        }
        if exists|k: int|
            0 <= k < scope.len() && m.nodes@.dom().contains(#[trigger] scope[k]) && (
            m.nodes@[scope[k]] == n || some_given_refers(m, tests(scope[k]), n)) {
            let k = choose|k: int|
                0 <= k < scope.len() && m.nodes@.dom().contains(#[trigger] scope[k]) && (
                m.nodes@[scope[k]] == n || some_given_refers(m, tests(scope[k]), n));
            if k < d.len() {
                assert(d[k] == scope[k]);
                assert(head.contains(n));
                let x = choose|x: int| 0 <= x < head.len() && head[x] == n;
                assert(all[x] == n);
            } else if m.nodes@[id] == n {
                assert(all[head.len() as int] == n);
            } else {
                assert(ups.contains(n));
                let x = choose|x: int| 0 <= x < ups.len() && ups[x] == n;
                assert(all[head.len() + 1 + x] == n);
            }
        }
    }
}

/// Law: what is mentioned is listed id by id, test by test and given by given:
/// a node in scope, then what its tests refer to.
pub proof fn law_mentioned_order(
    m: Manifest,
    scope: Seq<Seq<char>>,
    id: Seq<char>,
    tests: spec_fn(Seq<char>) -> Seq<(Seq<char>, UnitTest)>,
    some: Seq<(Seq<char>, UnitTest)>,
    t: (Seq<char>, UnitTest),
    given: Seq<UnitTestGiven>,
    g: UnitTestGiven,
    n: Node,
)
    ensures
        mentioned(m, Seq::empty(), tests).len() == 0,
        m.nodes@.dom().contains(id) ==> mentioned(m, scope.push(id), tests) == mentioned(
            m,
            scope,
            tests,
        ).push(m.nodes@[id]) + upstream_models(m, tests(id)),
        !m.nodes@.dom().contains(id) ==> mentioned(m, scope.push(id), tests) == mentioned(
            m,
            scope,
            tests,
        ),
        upstream_models(m, Seq::empty()).len() == 0,
        upstream_models(m, some.push(t)) == upstream_models(m, some) + given_models(m, t.1.given@),
        given_models(m, Seq::empty()).len() == 0,
        refers_to_model(m, g, n) ==> given_models(m, given.push(g)) == given_models(m, given).push(
            n,
        ),
        (forall|x: Node| !#[trigger] refers_to_model(m, g, x)) ==> given_models(m, given.push(g))
            == given_models(m, given),
{
    assert(scope.push(id).drop_last() == scope);
    assert(some.push(t).drop_last() == some);
    assert(given.push(g).drop_last() == given);
    if forall|x: Node| !#[trigger] refers_to_model(m, g, x) {
        if ref_target(g.input@) is Some && model_called(m, ref_target(g.input@)->0) is Some {
            assert(refers_to_model(m, g, model_called(m, ref_target(g.input@)->0)->0));
        }
    }
}

/// Law: the lookup has an entry for exactly the bare names of mentioned models
/// of which there is something to show, and shows the model that was mentioned
/// last under the name.
pub proof fn law_lookup(
    map: Map<Seq<char>, ManifestNodePayload>,
    m: Manifest,
    scope: Seq<Seq<char>>,
    tests: spec_fn(Seq<char>) -> Seq<(Seq<char>, UnitTest)>,
    k: Seq<char>,
    i: int,
)
    requires
        is_lookup(map, m, scope, tests),
        0 <= i < mentioned(m, scope, tests).len(),
    ensures
        ({
            let all = mentioned(m, scope, tests);
            let last = all[i].ref_name() == k && forall|j: int|
                i < j < all.len() ==> (#[trigger] all[j]).ref_name() != k;
            &&& last && has_context(m, all[i]) ==> map.dom().contains(k) && shows_node(
                map[k],
                m,
                all[i],
            )
            &&& last && !has_context(m, all[i]) ==> !map.dom().contains(k)
            &&& (forall|j: int| 0 <= j < all.len() ==> (#[trigger] all[j]).ref_name() != k)
                ==> !map.dom().contains(k)
        }),
{
    let all = mentioned(m, scope, tests);
    lemma_by_bare(all, k);
    if by_bare(all).dom().contains(k) {
        let x = choose|x: int|
            0 <= x < all.len() && (#[trigger] all[x]).ref_name() == k && by_bare(all)[k] == all[x]
                && forall|j: int| x < j < all.len() ==> (#[trigger] all[j]).ref_name() != k;
        if all[i].ref_name() == k && (forall|j: int|
            i < j < all.len() ==> (#[trigger] all[j]).ref_name() != k) {
            assert(x == i) by {
                if x < i {
                    assert(all[i].ref_name() != k);
                } else if i < x {
                    assert(all[x].ref_name() != k);
                }
            }
        }
    }
}

proof fn lemma_by_bare(nodes: Seq<Node>, k: Seq<char>)
    ensures
        by_bare(nodes).dom().contains(k) <==> exists|x: int|
            0 <= x < nodes.len() && (#[trigger] nodes[x]).ref_name() == k,
        by_bare(nodes).dom().contains(k) ==> exists|x: int|
            0 <= x < nodes.len() && (#[trigger] nodes[x]).ref_name() == k && by_bare(nodes)[k]
                == nodes[x] && forall|j: int|
                x < j < nodes.len() ==> (#[trigger] nodes[j]).ref_name() != k,
    decreases nodes.len(),
{
    if nodes.len() > 0 {
        let d = nodes.drop_last();
        lemma_by_bare(d, k);
        assert(nodes[nodes.len() - 1] == nodes.last());
        if nodes.last().ref_name() != k {
            if by_bare(d).dom().contains(k) {
                let x = choose|x: int|
                    0 <= x < d.len() && (#[trigger] d[x]).ref_name() == k && by_bare(d)[k] == d[x]
                        && forall|j: int| x < j < d.len() ==> (#[trigger] d[j]).ref_name() != k;
                assert(nodes[x] == d[x]);
                assert forall|j: int| x < j < nodes.len() implies (#[trigger] nodes[j]).ref_name()
                    != k by {
                    if j < d.len() {
                        assert(d[j] == nodes[j]);
                    }
                }
            }
            if exists|x: int| 0 <= x < nodes.len() && (#[trigger] nodes[x]).ref_name() == k {
                let x = choose|x: int| 0 <= x < nodes.len() && (#[trigger] nodes[x]).ref_name() == k;
                assert(d[x] == nodes[x]);
            }
        }
    }
}

} // verus!
