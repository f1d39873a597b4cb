//! What is known of the columns of a table: descriptions, and the data tests
//! attached to them.
use vstd::prelude::*;
use vstd::string::*;
use crate::domain::{FixtureTable, Manifest, Node, SourceNode, TestMetadata};
use crate::json::{
    json_content, json_elements, json_member, json_string, scalar_token, token, value_as_array,
    value_as_str, value_get, value_is_null,
};
use crate::order::{
    items, law_key_order, law_list_key_order, law_opt_key_order, lemma_sorted_map, lex_lt, list_lt,
    opt_field, opt_lt, push_opt_field, push_text_field, push_texts_field, ranks, renamed,
    sort_ranked, sorted, text_field, text_lt, texts_field, Ranked,
};
use crate::table::{keys_ascend, StrMap};
use crate::text::{
    after_first, behind_first, law_split_step, opt_str, opt_text, same_text, split, split_on, texts,
};

verus! {

// ---------------------------------------------------------------------
// One data test
// ---------------------------------------------------------------------

/// A data test on a column as the report names it.
#[derive(Debug, PartialEq, Eq)]
pub struct ColumnTestPayload {
    pub name: String,
    /// The values that the column may hold, for a test that lists them.
    pub values: Vec<String>,
    /// What the test compares with, for a test that does.
    pub detail: Option<String>,
}

/// The texts of a data test.
pub struct ColumnTestText {
    pub name: Seq<char>,
    pub values: Seq<Seq<char>>,
    pub detail: Option<Seq<char>>,
}

impl View for ColumnTestPayload {
    type V = ColumnTestText;

    open spec fn view(&self) -> ColumnTestText {
        ColumnTestText {
            name: self.name@,
            values: texts(self.values@),
            detail: opt_text(self.detail),
        }
    }
}

impl Clone for ColumnTestPayload {
    fn clone(&self) -> (r: Self)
        ensures
            r@ == self@,
    {
        let values: Vec<String> = self.values.clone();
        assert(texts(values@) == texts(self.values@));
        ColumnTestPayload { name: self.name.clone(), values, detail: self.detail.clone() }
    }
}

impl Default for ColumnTestPayload {
    fn default() -> (r: Self)
        ensures
            r@ == bare_test_text(Seq::empty()),
    {
        named_test(String::new())
    }
}

/// A test that has a name only.
pub open spec fn bare_test_text(name: Seq<char>) -> ColumnTestText {
    ColumnTestText { name, values: Seq::empty(), detail: None }
}

fn named_test(name: String) -> (r: ColumnTestPayload)
    ensures
        r@ == bare_test_text(name@),
{
    let r: ColumnTestPayload = ColumnTestPayload { name, values: Vec::new(), detail: None };
    assert(r@.values == Seq::<Seq<char>>::empty());
    r
}

/// The texts of an optional JSON array of scalars.
pub open spec fn token_list(v: Option<serde_json::Value>) -> Seq<Seq<char>> {
    match v {
        Some(x) => match json_elements(x) {
            Some(s) => s.map_values(|e: serde_json::Value| token(e)),
            None => Seq::empty(),
        },
        None => Seq::empty(),
    }
}

/// The content of the last pair of single quotes in the call `s`; all of `s`
/// where it is no call or has no such pair.
pub open spec fn last_quoted(s: Seq<char>) -> Seq<char> {
    let parts = split_on(s, '\'');
    let quotes = parts.len() - 1;
    if behind_first(s, '(') is Some && quotes >= 2 {
        parts[2 * (quotes / 2) - 1]
    } else {
        s
    }
}

/// The content of the last pair of single quotes in a call, such as the name
/// in `ref('name')`; all of `value` where it is no call, which has an opening
/// parenthesis, or has no such pair.
pub fn unquote_last_jinja_arg(value: &str) -> (r: String)
    ensures
        r@ == last_quoted(value@),
{
    let parts: Vec<String> = split(value, '\'');
    let quotes: usize = parts.len() - 1;
    assert(texts(parts@).len() == parts@.len());
    if after_first(value, '(').is_some() && quotes >= 2 {
        let k: usize = 2 * (quotes / 2) - 1;
        assert(texts(parts@)[k as int] == parts@[k as int]@);
        parts[k].clone()
    } else {
        value.to_owned()
    }
}

/// The string under `key`.
pub open spec fn text_member(v: serde_json::Value, key: Seq<char>) -> Option<Seq<char>> {
    match json_member(v, key) {
        Some(x) => json_string(x),
        None => None,
    }
}

/// The value under `key`, unless it is null.
pub open spec fn solid_member(v: serde_json::Value, key: Seq<char>) -> Option<serde_json::Value> {
    match json_member(v, key) {
        Some(x) => if json_content(x) is Null {
            None
        } else {
            Some(x)
        },
        None => None,
    }
}

/// The target of a relationship, from what the test is called with as `to`
/// and `field`.
pub open spec fn relation_text(to: Option<Seq<char>>, field: Option<Seq<char>>) -> Option<
    Seq<char>,
> {
    match (to, field) {
        (Some(t), Some(f)) => Some(last_quoted(t) + "."@ + f),
        (Some(t), None) => Some(last_quoted(t)),
        (None, _) => None,
    }
}

/// The bounds of a range, from the texts of its ends.
pub open spec fn range_text(min: Option<Seq<char>>, max: Option<Seq<char>>) -> Option<Seq<char>> {
    match (min, max) {
        (Some(a), Some(b)) => Some(a + "\u{2013}"@ + b),
        (Some(a), None) => Some("\u{2265} "@ + a),
        (None, Some(b)) => Some("\u{2264} "@ + b),
        (None, None) => None,
    }
}

/// The text of an optional JSON scalar.
pub open spec fn opt_token(v: Option<serde_json::Value>) -> Option<Seq<char>> {
    match v {
        Some(x) => Some(token(x)),
        None => None,
    }
}

/// The name of a test with its package.
pub open spec fn qualified_name(tm: TestMetadata) -> Seq<char> {
    match tm.namespace {
        Some(ns) => ns@ + "."@ + tm.name@,
        None => tm.name@,
    }
}

/// A data test as the report names it: the known ones in words, with what
/// they are called with; any other by its name and package.
pub open spec fn test_text(tm: TestMetadata) -> ColumnTestText {
    if tm.name@ == "unique"@ {
        bare_test_text("unique"@)
    } else if tm.name@ == "not_null"@ {
        bare_test_text("not null"@)
    } else if tm.name@ == "accepted_values"@ {
        ColumnTestText {
            name: "accepted values"@,
            values: token_list(json_member(tm.kwargs, "values"@)),
            detail: None,
        }
    } else if tm.name@ == "relationships"@ {
        ColumnTestText {
            name: "relationships"@,
            values: Seq::empty(),
            detail: relation_text(text_member(tm.kwargs, "to"@), text_member(tm.kwargs, "field"@)),
        }
    } else if tm.name@ == "accepted_range"@ {
        ColumnTestText {
            name: "accepted range"@,
            values: Seq::empty(),
            detail: range_text(
                opt_token(solid_member(tm.kwargs, "min_value"@)),
                opt_token(solid_member(tm.kwargs, "max_value"@)),
            ),
        }
    } else {
        bare_test_text(qualified_name(tm))
    }
}

fn member_text<'a>(v: &'a serde_json::Value, key: &str) -> (r: Option<&'a str>)
    ensures
        opt_str(r) == text_member(*v, key@),
{
    match value_get(v, key) {
        Some(x) => value_as_str(x),
        None => None,
    }
}

fn member_token(v: &serde_json::Value, key: &str) -> (r: Option<String>)
    ensures
        opt_text(r) == opt_token(solid_member(*v, key@)),
{
    match value_get(v, key) {
        Some(x) => if value_is_null(x) {
            None
        } else {
            Some(scalar_token(x))
        },
        None => None,
    }
}

/// The target of a relationship, from its `to` and `field`.
pub fn relation_detail(to: Option<&str>, field: Option<&str>) -> (r: Option<String>)
    ensures
        opt_text(r) == relation_text(opt_str(to), opt_str(field)),
{
    match to {
        Some(t) => {
            let mut s: String = unquote_last_jinja_arg(t);
            if let Some(f) = field {
                s.append(".");
                s.append(f);
            }
            Some(s)
        },
        None => None,
    }
}

/// The target of a `relationships` test.
pub fn relationships_detail(tm: &TestMetadata) -> (r: Option<String>)
    ensures
        opt_text(r) == relation_text(
            text_member(tm.kwargs, "to"@),
            text_member(tm.kwargs, "field"@),
        ),
{
    relation_detail(member_text(&tm.kwargs, "to"), member_text(&tm.kwargs, "field"))
}

/// The bounds of a range, from the texts of its ends.
pub fn range_detail(min: Option<String>, max: Option<String>) -> (r: Option<String>)
    ensures
        opt_text(r) == range_text(opt_text(min), opt_text(max)),
{
    match (min, max) {
        (Some(a), Some(b)) => {
            let mut s: String = a;
            s.append("\u{2013}");
            s.append(b.as_str());
            Some(s)
        },
        (Some(a), None) => {
            let mut s: String = "\u{2265} ".to_owned();
            s.append(a.as_str());
            Some(s)
        },
        (None, Some(b)) => {
            let mut s: String = "\u{2264} ".to_owned();
            s.append(b.as_str());
            Some(s)
        },
        (None, None) => None,
    }
}

/// The bounds of an `accepted_range` test.
pub fn accepted_range_detail(tm: &TestMetadata) -> (r: Option<String>)
    ensures
        opt_text(r) == range_text(
            opt_token(solid_member(tm.kwargs, "min_value"@)),
            opt_token(solid_member(tm.kwargs, "max_value"@)),
        ),
{
    range_detail(member_token(&tm.kwargs, "min_value"), member_token(&tm.kwargs, "max_value"))
}

fn member_tokens(v: &serde_json::Value, key: &str) -> (r: Vec<String>)
    ensures
        texts(r@) == token_list(json_member(*v, key@)),
{
    let mut out: Vec<String> = Vec::new();
    assert(texts(out@) == Seq::<Seq<char>>::empty());
    let list: &Vec<serde_json::Value> = match value_get(v, key) {
        Some(x) => match value_as_array(x) {
            Some(list) => list,
            None => {
                return out;
            },
        },
        None => {
            return out;
        },
    };
    let ghost f = |e: serde_json::Value| token(e);
    let mut i: usize = 0;
    assert(list@.take(0).map_values(f) == Seq::<Seq<char>>::empty());
    while i < list.len()
        invariant
            i <= list@.len(),
            f == (|e: serde_json::Value| token(e)),
            token_list(json_member(*v, key@)) == list@.map_values(f),
            texts(out@) == list@.take(i as int).map_values(f),
        decreases list@.len() - i,
    {
        let ghost before = out@;
        out.push(scalar_token(&list[i]));
        assert(texts(out@) == texts(before).push(f(list@[i as int])));
        assert(list@.take(i as int + 1).map_values(f) == list@.take(i as int).map_values(f).push(
            f(list@[i as int]),
        ));
        i += 1;
    }
    assert(list@.take(i as int) == list@);
    out
}

/// A data test as the report names it.
pub fn column_test_payload(tm: &TestMetadata) -> (r: ColumnTestPayload)
    ensures
        r@ == test_text(*tm),
{
    let name: &str = tm.name.as_str();
    if same_text(name, "unique") {
        named_test("unique".to_owned())
    } else if same_text(name, "not_null") {
        named_test("not null".to_owned())
    } else if same_text(name, "accepted_values") {
        ColumnTestPayload {
            name: "accepted values".to_owned(),
            values: member_tokens(&tm.kwargs, "values"),
            detail: None,
        }
    } else if same_text(name, "relationships") {
        let mut r: ColumnTestPayload = named_test("relationships".to_owned());
        r.detail = relationships_detail(tm);
        r
    } else if same_text(name, "accepted_range") {
        let mut r: ColumnTestPayload = named_test("accepted range".to_owned());
        r.detail = accepted_range_detail(tm);
        r
    } else {
        let qualified: String = match &tm.namespace {
            Some(ns) => {
                let mut s: String = ns.clone();
                s.append(".");
                s.append(name);
                s
            },
            None => tm.name.clone(),
        };
        named_test(qualified)
    }
}

// ---------------------------------------------------------------------
// The data tests on the columns of a table
// ---------------------------------------------------------------------

/// A data test with its column.
pub struct ColumnTest {
    pub column: String,
    pub test: ColumnTestPayload,
}

/// The texts of a data test and its column.
pub open spec fn column_test_text(t: ColumnTest) -> (Seq<char>, ColumnTestText) {
    (t.column@, t.test@)
}

/// `node` is a data test on a column of the node `attached`.
pub open spec fn tests_column_of(node: Node, attached: Seq<char>) -> bool {
    &&& node.resource_type@ == "test"@
    &&& opt_text(node.attached_node) == Some(attached)
    &&& node.column_name is Some
    &&& node.test_metadata is Some
}

/// The order of the data tests of a table: by column, then by what is shown
/// of the test, then by id.
pub open spec fn column_test_key(column: Seq<char>, t: ColumnTestText, id: Seq<char>) -> Seq<u64> {
    text_field(column) + text_field(t.name) + texts_field(t.values) + opt_field(t.detail)
        + text_field(id)
}

/// The data tests on the columns of the node `attached` among `nodes`, with
/// their keys.
pub open spec fn keyed_column_tests(nodes: Seq<(Seq<char>, Node)>, attached: Seq<char>) -> Seq<
    (Seq<u64>, (Seq<char>, ColumnTestText)),
>
    decreases nodes.len(),
{
    if nodes.len() == 0 {
        Seq::empty()
    } else {
        let head = keyed_column_tests(nodes.drop_last(), attached);
        let node = nodes.last().1;
        if tests_column_of(node, attached) {
            let column = node.column_name->0@;
            let t = test_text(node.test_metadata->0);
            head.push((column_test_key(column, t, nodes.last().0), (column, t)))
        } else {
            head
        }
    }
}

/// The data tests on the columns of the node `attached`, in their order.
pub open spec fn column_tests(m: Manifest, attached: Seq<char>) -> Seq<
    (Seq<char>, ColumnTestText),
> {
    items(sorted(keyed_column_tests(m.nodes.entries(), attached)))
}

/// Whether `o` is the text `s`.
pub fn is_text(o: &Option<String>, s: &str) -> (r: bool)
    ensures
        r == (opt_text(*o) == Some(s@)),
{
    match o {
        Some(t) => same_text(t.as_str(), s),
        None => false,
    }
}

/// The data tests on the columns of the node `attached`: by column, then by
/// what is shown of the test, then by id.
pub fn attached_column_tests(current: &Manifest, attached: &str) -> (r: Vec<ColumnTest>)
    ensures
        r@.map_values(|t: ColumnTest| column_test_text(t)) == column_tests(*current, attached@),
{
    let ghost es = current.nodes.entries();
    let ghost f = |t: ColumnTest| column_test_text(t);
    let mut found: Vec<Ranked<ColumnTest>> = Vec::new();
    let n: usize = current.nodes.len();
    let mut i: usize = 0;
    assert(es.take(0) == Seq::<(Seq<char>, Node)>::empty());
    assert(renamed(ranks(found@), f) == keyed_column_tests(es.take(0), attached@));
    while i < n
        invariant
            i <= n == es.len(),
            es == current.nodes.entries(),
            f == (|t: ColumnTest| column_test_text(t)),
            renamed(ranks(found@), f) == keyed_column_tests(es.take(i as int), attached@),
        decreases n - i,
    {
        let node: &Node = current.nodes.value_at(i);
        proof {
            assert(es.take(i as int + 1).drop_last() == es.take(i as int));
            assert(es.take(i as int + 1).last() == es[i as int]);
        }
        if same_text(node.resource_type.as_str(), "test") && is_text(
            &node.attached_node,
            attached,
        ) {
            if let Some(column) = &node.column_name {
                if let Some(tm) = &node.test_metadata {
                    let test: ColumnTestPayload = column_test_payload(tm);
                    let mut key: Vec<u64> = Vec::new();
                    push_text_field(&mut key, column.as_str());
                    push_text_field(&mut key, test.name.as_str());
                    push_texts_field(&mut key, &test.values);
                    push_opt_field(&mut key, &test.detail);
                    push_text_field(&mut key, current.nodes.key_at(i).as_str());
                    let ghost e = (key@, (column@, test@));
                    assert(key@ == column_test_key(column@, test@, es[i as int].0));
                    let ghost before = found@;
                    found.push(
                        Ranked { key, item: ColumnTest { column: column.clone(), test } },
                    );
                    assert(renamed(ranks(found@), f) == renamed(ranks(before), f).push(e));
                }
            }
        }
        i += 1;
    }
    assert(es.take(i as int) == es);
    proof {
        lemma_sorted_map(ranks(found@), f);
    }
    let order: Vec<Ranked<ColumnTest>> = sort_ranked(found);
    let ghost all = ranks(order@);
    let mut out: Vec<ColumnTest> = Vec::new();
    for x in it: order
        invariant
            it.seq() == order@,
            all == ranks(order@),
            out@.len() == it.index(),
            forall|j: int| 0 <= j < out@.len() ==> #[trigger] out@[j] == all[j].1,
    {
        out.push(x.item);
    }
    assert(out@.map_values(f) == items(renamed(all, f)));
    out
}

// ---------------------------------------------------------------------
// What is known of the columns
// ---------------------------------------------------------------------

/// What is known of a column.
#[derive(Debug, PartialEq, Eq)]
pub struct ColumnMetaPayload {
    pub description: Option<String>,
    pub tests: Vec<ColumnTestPayload>,
}

/// The texts of a list of data tests.
pub open spec fn test_texts(v: Seq<ColumnTestPayload>) -> Seq<ColumnTestText> {
    v.map_values(|t: ColumnTestPayload| t@)
}

/// The texts of what is known of a column.
pub struct ColumnMetaText {
    pub description: Option<Seq<char>>,
    pub tests: Seq<ColumnTestText>,
}

impl View for ColumnMetaPayload {
    type V = ColumnMetaText;

    open spec fn view(&self) -> ColumnMetaText {
        ColumnMetaText { description: opt_text(self.description), tests: test_texts(self.tests@) }
    }
}

/// A copy of a list of data tests.
pub fn clone_tests(v: &Vec<ColumnTestPayload>) -> (r: Vec<ColumnTestPayload>)
    ensures
        test_texts(r@) == test_texts(v@),
        r@.len() == v@.len(),
{
    let mut out: Vec<ColumnTestPayload> = Vec::new();
    let mut i: usize = 0;
    while i < v.len()
        invariant
            i <= v@.len(),
            test_texts(out@) == test_texts(v@.take(i as int)),
        decreases v@.len() - i,
    {
        let ghost before = out@;
        out.push(v[i].clone());
        assert(test_texts(out@) == test_texts(before).push(v@[i as int]@));
        assert(test_texts(v@.take(i as int + 1)) == test_texts(v@.take(i as int)).push(
            v@[i as int]@,
        ));
        i += 1;
    }
    assert(v@.take(i as int) == v@);
    assert(test_texts(out@).len() == out@.len());
    assert(test_texts(v@).len() == v@.len());
    out
}

impl Clone for ColumnMetaPayload {
    fn clone(&self) -> (r: Self)
        ensures
            r@ == self@,
    {
        ColumnMetaPayload {
            description: self.description.clone(),
            tests: clone_tests(&self.tests),
        }
    }
}

/// The data tests on `column`, in order.
pub open spec fn tests_on(all: Seq<(Seq<char>, ColumnTestText)>, column: Seq<char>) -> Seq<
    ColumnTestText,
>
    decreases all.len(),
{
    if all.len() == 0 {
        Seq::empty()
    } else {
        let head = tests_on(all.drop_last(), column);
        if all.last().0 == column {
            head.push(all.last().1)
        } else {
            head
        }
    }
}

/// What is known of `column`, given the descriptions and the data tests.
pub open spec fn column_meta_text(
    descriptions: Map<Seq<char>, String>,
    tests: Seq<(Seq<char>, ColumnTestText)>,
    column: Seq<char>,
) -> ColumnMetaText {
    ColumnMetaText {
        description: if descriptions.dom().contains(column) {
            Some(descriptions[column]@)
        } else {
            None
        },
        tests: tests_on(tests, column),
    }
}

/// Something is known of `column`.
pub open spec fn has_column_meta(
    descriptions: Map<Seq<char>, String>,
    tests: Seq<(Seq<char>, ColumnTestText)>,
    column: Seq<char>,
) -> bool {
    descriptions.dom().contains(column) || exists|k: int|
        0 <= k < tests.len() && (#[trigger] tests[k]).0 == column
}

/// `meta` holds what is known of each column of which something is known.
pub open spec fn is_column_meta(
    meta: Map<Seq<char>, ColumnMetaPayload>,
    descriptions: Map<Seq<char>, String>,
    tests: Seq<(Seq<char>, ColumnTestText)>,
) -> bool {
    &&& forall|c: Seq<char>| #[trigger]
        meta.dom().contains(c) <==> has_column_meta(descriptions, tests, c)
    &&& forall|c: Seq<char>| #[trigger]
        meta.dom().contains(c) ==> meta[c]@ == column_meta_text(descriptions, tests, c)
}

fn tests_of_column(all: &Vec<ColumnTest>, column: &str) -> (r: Vec<ColumnTestPayload>)
    ensures
        test_texts(r@) == tests_on(
            all@.map_values(|t: ColumnTest| column_test_text(t)),
            column@,
        ),
{
    let ghost f = |t: ColumnTest| column_test_text(t);
    let ghost s = all@.map_values(f);
    let mut out: Vec<ColumnTestPayload> = Vec::new();
    let mut i: usize = 0;
    assert(s.take(0) == Seq::<(Seq<char>, ColumnTestText)>::empty());
    assert(test_texts(out@) == Seq::<ColumnTestText>::empty());
    while i < all.len()
        invariant
            i <= all@.len(),
            f == (|t: ColumnTest| column_test_text(t)),
            s == all@.map_values(f),
            test_texts(out@) == tests_on(s.take(i as int), column@),
        decreases all@.len() - i,
    {
        proof {
            assert(s.take(i as int + 1).drop_last() == s.take(i as int));
            assert(s.take(i as int + 1).last() == f(all@[i as int]));
        }
        if same_text(all[i].column.as_str(), column) {
            let ghost before = out@;
            out.push(all[i].test.clone());
            assert(test_texts(out@) == test_texts(before).push(all@[i as int].test@));
        }
        i += 1;
    }
    assert(s.take(i as int) == s);
    out
}

/// What is known of each column, from the descriptions and the data tests.
fn merge_column_meta(descriptions: &StrMap<String>, tests: &Vec<ColumnTest>) -> (r: StrMap<
    ColumnMetaPayload,
>)
    ensures
        is_column_meta(
            r@,
            descriptions@,
            tests@.map_values(|t: ColumnTest| column_test_text(t)),
        ),
{
    let ghost f = |t: ColumnTest| column_test_text(t);
    let ghost all = tests@.map_values(f);
    let ghost ds = descriptions.entries();
    let mut meta: StrMap<ColumnMetaPayload> = StrMap::new();
    let n: usize = descriptions.len();
    let mut i: usize = 0;
    while i < n
        invariant
            i <= n == ds.len(),
            ds == descriptions.entries(),
            keys_ascend(ds),
            f == (|t: ColumnTest| column_test_text(t)),
            all == tests@.map_values(f),
            forall|c: Seq<char>| #[trigger]
                meta@.dom().contains(c) <==> exists|k: int| 0 <= k < i && (#[trigger] ds[k]).0 == c,
            forall|c: Seq<char>| #[trigger]
                meta@.dom().contains(c) ==> meta@[c]@ == column_meta_text(descriptions@, all, c),
        decreases n - i,
    {
        let column: &String = descriptions.key_at(i);
        let text: &String = descriptions.value_at(i);
        let entry: ColumnMetaPayload = ColumnMetaPayload {
            description: Some(text.clone()),
            tests: tests_of_column(tests, column.as_str()),
        };
        let ghost before = meta@;
        meta.insert(column.clone(), entry);
        assert forall|c: Seq<char>| #[trigger]
            meta@.dom().contains(c) <==> exists|k: int| 0 <= k < i + 1 && (#[trigger] ds[k]).0
                == c by {
            if c == column@ {
                assert(ds[i as int].0 == c);
            } else if before.dom().contains(c) {
                let k = choose|k: int| 0 <= k < i && (#[trigger] ds[k]).0 == c;
                assert(ds[k].0 == c);
            }
        }
        i += 1;
    }
    assert forall|c: Seq<char>| meta@.dom().contains(c) <==> descriptions@.dom().contains(c) by {
        if descriptions@.dom().contains(c) {
            let k = choose|k: int| 0 <= k < ds.len() && (#[trigger] ds[k]).0 == c;
            assert(ds[k].0 == c);
            assert(meta@.dom().contains(c));
        }
    }
    let mut k: usize = 0;
    while k < tests.len()
        invariant
            k <= tests@.len(),
            f == (|t: ColumnTest| column_test_text(t)),
            all == tests@.map_values(f),
            forall|c: Seq<char>| #[trigger]
                meta@.dom().contains(c) <==> descriptions@.dom().contains(c) || exists|j: int|
                    0 <= j < k && (#[trigger] all[j]).0 == c,
            forall|c: Seq<char>| #[trigger]
                meta@.dom().contains(c) ==> meta@[c]@ == column_meta_text(descriptions@, all, c),
        decreases tests@.len() - k,
    {
        let column: &String = &tests[k].column;
        assert(all[k as int].0 == column@);
        let ghost before = meta@;
        if !meta.contains_key(column.as_str()) {
            let entry: ColumnMetaPayload = ColumnMetaPayload {
                description: None,
                tests: tests_of_column(tests, column.as_str()),
            };
            assert(!descriptions@.dom().contains(column@));
            meta.insert(column.clone(), entry);
        }
        assert forall|c: Seq<char>| #[trigger]
            meta@.dom().contains(c) <==> descriptions@.dom().contains(c) || exists|j: int|
                0 <= j < k + 1 && (#[trigger] all[j]).0 == c by {
            if c == column@ {
                assert(all[k as int].0 == c);
            } else if before.dom().contains(c) {
                if !descriptions@.dom().contains(c) {
                    let j = choose|j: int| 0 <= j < k && (#[trigger] all[j]).0 == c;
                    assert(all[j].0 == c);
                }
            }
        }
        k += 1;
    }
    meta
}

/// What is known of each column of a model: its description, and the data
/// tests on it.
pub fn column_meta_for_model(current: &Manifest, model: &Node) -> (r: StrMap<ColumnMetaPayload>)
    ensures
        is_column_meta(r@, model.column_descriptions@, column_tests(*current, model.id@)),
{
    let tests: Vec<ColumnTest> = attached_column_tests(current, model.id.as_str());
    merge_column_meta(&model.column_descriptions, &tests)
}

/// What is known of each column of a source table.
pub fn column_meta_for_source(current: &Manifest, source: &SourceNode) -> (r: StrMap<
    ColumnMetaPayload,
>)
    ensures
        is_column_meta(r@, source.column_descriptions@, column_tests(*current, source.id@)),
{
    let tests: Vec<ColumnTest> = attached_column_tests(current, source.id.as_str());
    merge_column_meta(&source.column_descriptions, &tests)
}

/// `out` holds what `meta` holds of the columns of `table`, and nothing else.
pub open spec fn narrowed_to(
    out: Map<Seq<char>, ColumnMetaPayload>,
    meta: Map<Seq<char>, ColumnMetaPayload>,
    table: Option<&FixtureTable>,
) -> bool {
    &&& forall|c: Seq<char>| #[trigger]
        out.dom().contains(c) <==> meta.dom().contains(c) && table is Some && texts(
            table->0.columns@,
        ).contains(c)
    &&& forall|c: Seq<char>| #[trigger] out.dom().contains(c) ==> out[c]@ == meta[c]@
}

/// What `meta` holds of the columns of `table`; nothing without a table.
pub fn column_meta_for_table(
    meta: &StrMap<ColumnMetaPayload>,
    table: Option<&FixtureTable>,
) -> (r: StrMap<ColumnMetaPayload>)
    ensures
        narrowed_to(r@, meta@, table),
{
    let mut out: StrMap<ColumnMetaPayload> = StrMap::new();
    let t: &FixtureTable = match table {
        Some(t) => t,
        None => {
            return out;
        },
    };
    let ghost names = texts(t.columns@);
    let mut i: usize = 0;
    while i < t.columns.len()
        invariant
            i <= t.columns@.len(),
            names == texts(t.columns@),
            forall|c: Seq<char>| #[trigger]
                out@.dom().contains(c) <==> meta@.dom().contains(c) && exists|k: int|
                    0 <= k < i && #[trigger] names[k] == c,
            forall|c: Seq<char>| #[trigger] out@.dom().contains(c) ==> out@[c]@ == meta@[c]@,
        decreases t.columns@.len() - i,
    {
        let column: &String = &t.columns[i];
        assert(names[i as int] == column@);
        let ghost before = out@;
        if let Some(m) = meta.get(column.as_str()) {
            out.insert(column.clone(), m.clone());
        }
        assert forall|c: Seq<char>| #[trigger]
            out@.dom().contains(c) <==> meta@.dom().contains(c) && exists|k: int|
                0 <= k < i + 1 && #[trigger] names[k] == c by {
            if c == column@ {
                assert(names[i as int] == c);
            } else if before.dom().contains(c) {
                let k = choose|k: int| 0 <= k < i && #[trigger] names[k] == c;
                assert(names[k] == c);
            }
        }
        i += 1;
    }
    assert forall|c: Seq<char>| #[trigger]
        out@.dom().contains(c) <==> meta@.dom().contains(c) && table is Some && names.contains(c) by {
        if names.contains(c) {
            let k = choose|k: int| 0 <= k < names.len() && names[k] == c;
            assert(names[k] == c);
        }
    }
    out
}

// ---------------------------------------------------------------------
// Laws
// ---------------------------------------------------------------------

/// Law: the texts of a data test are those of its name, its values and its
/// detail; those of what is known of a column are its description and the
/// texts of its tests.
pub proof fn law_column_views(t: ColumnTestPayload, c: ColumnMetaPayload)
    ensures
        t@.name == t.name@,
        t@.values == texts(t.values@),
        t@.detail == opt_text(t.detail),
        c@.description == opt_text(c.description),
        c@.tests.len() == c.tests@.len(),
        forall|i: int| 0 <= i < c.tests@.len() ==> #[trigger] c@.tests[i] == c.tests@[i]@,
{
}

proof fn lemma_names_differ()
    ensures
        "unique"@.len() == 6,
        "not_null"@.len() == 8,
        "accepted_values"@.len() == 15,
        "relationships"@.len() == 13,
        "accepted_range"@.len() == 14,
{
    reveal_strlit("unique");
    reveal_strlit("not_null");
    reveal_strlit("accepted_values");
    reveal_strlit("relationships");
    reveal_strlit("accepted_range");
}

/// Law: `unique` and `not_null` are shown by their words alone; a test that is
/// not known is shown by its name, with its package before it where it has
/// one, and by nothing else.
pub proof fn law_named_tests(tm: TestMetadata)
    ensures
        tm.name@ == "unique"@ ==> test_text(tm) == bare_test_text("unique"@),
        tm.name@ == "not_null"@ ==> test_text(tm) == bare_test_text("not null"@),
        tm.name@ != "unique"@ && tm.name@ != "not_null"@ && tm.name@ != "accepted_values"@
            && tm.name@ != "relationships"@ && tm.name@ != "accepted_range"@ ==> (
        tm.namespace matches Some(ns) ==> test_text(tm) == bare_test_text(
            ns@ + "."@ + tm.name@,
        )) && (tm.namespace is None ==> test_text(tm) == bare_test_text(tm.name@)),
        bare_test_text(tm.name@).name == tm.name@,
        bare_test_text(tm.name@).values.len() == 0,
        bare_test_text(tm.name@).detail is None,
{
    lemma_names_differ();
}

/// Law: a test of accepted values shows each value of its list, in order, and
/// no other; without a list it shows none.
pub proof fn law_accepted_values(tm: TestMetadata)
    requires
        tm.name@ == "accepted_values"@,
    ensures
        test_text(tm).name == "accepted values"@,
        test_text(tm).detail is None,
        json_member(tm.kwargs, "values"@) is None ==> test_text(tm).values.len() == 0,
        json_member(tm.kwargs, "values"@) matches Some(v) ==> json_elements(v) is None ==> test_text(
            tm,
        ).values.len() == 0,
        json_member(tm.kwargs, "values"@) matches Some(v) ==> json_elements(v) matches Some(s) ==> {
            &&& test_text(tm).values.len() == s.len()
            &&& forall|i: int| 0 <= i < s.len() ==> #[trigger] test_text(tm).values[i] == token(s[i])
        },
{
    lemma_names_differ();
}

/// Law: a relationship shows its target, with the field behind it where it has
/// one; without a target it shows nothing.
pub proof fn law_relationships(tm: TestMetadata, to: Seq<char>, field: Seq<char>)
    requires
        tm.name@ == "relationships"@,
    ensures
        test_text(tm).name == "relationships"@,
        test_text(tm).values.len() == 0,
        text_member(tm.kwargs, "to"@) is None ==> test_text(tm).detail is None,
        text_member(tm.kwargs, "to"@) == Some(to) && text_member(tm.kwargs, "field"@) is None
            ==> test_text(tm).detail == Some(last_quoted(to)),
        text_member(tm.kwargs, "to"@) == Some(to) && text_member(tm.kwargs, "field"@) == Some(field)
            ==> test_text(tm).detail == Some(last_quoted(to) + "."@ + field),
{
    lemma_names_differ();
}

/// Law: a range shows both of its ends with a dash between, or the one that it
/// has as a lower or an upper bound; an end that is null counts as none.
pub proof fn law_accepted_range(tm: TestMetadata)
    requires
        tm.name@ == "accepted_range"@,
    ensures
        ({
            let min = solid_member(tm.kwargs, "min_value"@);
            let max = solid_member(tm.kwargs, "max_value"@);
            &&& test_text(tm).name == "accepted range"@
            &&& test_text(tm).values.len() == 0
            &&& min is Some && max is Some ==> test_text(tm).detail == Some(
                token(min->0) + "\u{2013}"@ + token(max->0),
            )
            &&& min is Some && max is None ==> test_text(tm).detail == Some(
                "\u{2265} "@ + token(min->0),
            )
            &&& min is None && max is Some ==> test_text(tm).detail == Some(
                "\u{2264} "@ + token(max->0),
            )
            &&& min is None && max is None ==> test_text(tm).detail is None
        }),
{
    lemma_names_differ();
}

/// Law: a text member is a member that is a string; a solid member is a member
/// that is not null.
pub proof fn law_members(v: serde_json::Value, key: Seq<char>)
    ensures
        json_member(v, key) is None ==> text_member(v, key) is None && solid_member(v, key) is None,
        json_member(v, key) matches Some(x) ==> text_member(v, key) == json_string(x),
        json_member(v, key) matches Some(x) ==> json_content(x) is Null ==> solid_member(v, key)
            is None,
        json_member(v, key) matches Some(x) ==> !(json_content(x) is Null) ==> solid_member(v, key)
            == Some(x),
{
}

/// Law: of a call the content of its last pair of single quotes is kept, also
/// where a quote without a partner follows; a text that is no call, or that
/// has no such pair, is kept whole.
pub proof fn law_last_quoted(
    before: Seq<char>,
    x: Seq<char>,
    behind: Seq<char>,
    rest: Seq<char>,
)
    requires
        split_on(before, '\'').len() % 2 == 1,
        !x.contains('\''),
        !behind.contains('\''),
        !rest.contains('\''),
    ensures
        ({
            let s = before + seq!['\''] + x + seq!['\''] + behind;
            let t = s + seq!['\''] + rest;
            &&& behind_first(s, '(') is Some ==> last_quoted(s) == x
            &&& behind_first(t, '(') is Some ==> last_quoted(t) == x
            &&& behind_first(s, '(') is None ==> last_quoted(s) == s
            &&& last_quoted(x) == x
            &&& last_quoted(x + seq!['\''] + behind) == x + seq!['\''] + behind
        }),
{
    let a = before + seq!['\''] + x;
    let s = a + seq!['\''] + behind;
    let t = s + seq!['\''] + rest;
    let n = split_on(before, '\'').len();
    law_split_step(before, x, '\'');
    law_split_step(a, behind, '\'');
    law_split_step(s, rest, '\'');
    law_split_step(x, behind, '\'');
    assert(split_on(s, '\'').len() == n + 2);
    assert(split_on(s, '\'')[n as int] == x);
    assert(2 * ((n + 1) / 2) - 1 == n as int);
    assert(split_on(t, '\'').len() == n + 3);
    assert(split_on(t, '\'')[n as int] == x);
    assert(2 * ((n + 2) / 2) - 1 == n as int);
    assert(split_on(x + seq!['\''] + behind, '\'').len() == 2);
}

/// Law: a test is on a column of a node where it is a data test, attached to
/// that node, with a column and with metadata.
pub proof fn law_tests_column_of(n: Node, id: Seq<char>)
    ensures
        tests_column_of(n, id) <==> n.resource_type@ == "test"@ && n.attached_node is Some
            && n.attached_node->0@ == id && n.column_name is Some && n.test_metadata is Some,
{
}

/// `a` comes before `b`: by column, then by name, then by values, then by
/// detail, then by id.
pub open spec fn column_test_before(
    a: (Seq<char>, ColumnTestText, Seq<char>),
    b: (Seq<char>, ColumnTestText, Seq<char>),
) -> bool {
    text_lt(a.0, b.0) || (a.0 == b.0 && (text_lt(a.1.name, b.1.name) || (a.1.name == b.1.name && (
    list_lt(a.1.values, b.1.values) || (a.1.values == b.1.values && (opt_lt(a.1.detail, b.1.detail)
        || (a.1.detail == b.1.detail && text_lt(a.2, b.2))))))))
}

/// Law: the keys of data tests order them by column, name, values, detail and
/// id.
pub proof fn law_column_test_key(
    a: (Seq<char>, ColumnTestText, Seq<char>),
    b: (Seq<char>, ColumnTestText, Seq<char>),
)
    ensures
        lex_lt(column_test_key(a.0, a.1, a.2), column_test_key(b.0, b.1, b.2))
            == column_test_before(a, b),
{
    let none = Seq::<u64>::empty();
    let (x0, y0) = (text_field(a.2), text_field(b.2));
    let (x1, y1) = (opt_field(a.1.detail) + x0, opt_field(b.1.detail) + y0);
    let (x2, y2) = (texts_field(a.1.values) + x1, texts_field(b.1.values) + y1);
    let (x3, y3) = (text_field(a.1.name) + x2, text_field(b.1.name) + y2);
    assert(x0 + none == x0 && y0 + none == y0);
    law_key_order(a.2, b.2, none, none);
    law_opt_key_order(a.1.detail, b.1.detail, x0, y0);
    law_list_key_order(a.1.values, b.1.values, x1, y1);
    law_key_order(a.1.name, b.1.name, x2, y2);
    law_key_order(a.0, b.0, x3, y3);
    assert(column_test_key(a.0, a.1, a.2) == text_field(a.0) + x3);
    assert(column_test_key(b.0, b.1, b.2) == text_field(b.0) + y3);
}

/// Law: the data tests of a node are those among the manifest's nodes that are
/// on one of its columns, taken one by one and then put in order.
pub proof fn law_keyed_column_tests(
    nodes: Seq<(Seq<char>, Node)>,
    key: Seq<char>,
    n: Node,
    id: Seq<char>,
    m: Manifest,
)
    ensures
        keyed_column_tests(Seq::empty(), id).len() == 0,
        !tests_column_of(n, id) ==> keyed_column_tests(nodes.push((key, n)), id)
            == keyed_column_tests(nodes, id),
        tests_column_of(n, id) ==> keyed_column_tests(nodes.push((key, n)), id)
            == keyed_column_tests(nodes, id).push(
            (
                column_test_key(n.column_name->0@, test_text(n.test_metadata->0), key),
                (n.column_name->0@, test_text(n.test_metadata->0)),
            ),
        ),
        column_tests(m, id) == items(sorted(keyed_column_tests(m.nodes.entries(), id))),
{
    assert(nodes.push((key, n)).drop_last() == nodes);
}

/// Law: something is known of a column exactly where it has a description or a
/// data test; what is known of it is that description and those tests, in
/// their order.
pub proof fn law_column_meta(
    meta: Map<Seq<char>, ColumnMetaPayload>,
    descriptions: Map<Seq<char>, String>,
    tests: Seq<(Seq<char>, ColumnTestText)>,
    c: Seq<char>,
)
    requires
        is_column_meta(meta, descriptions, tests),
    ensures
        meta.dom().contains(c) <==> descriptions.dom().contains(c) || exists|k: int|
            0 <= k < tests.len() && (#[trigger] tests[k]).0 == c,
        meta.dom().contains(c) && descriptions.dom().contains(c) ==> meta[c].description is Some
            && meta[c].description->0@ == descriptions[c]@,
        meta.dom().contains(c) && !descriptions.dom().contains(c) ==> meta[c].description is None,
        meta.dom().contains(c) ==> test_texts(meta[c].tests@) == tests_on(tests, c),
{
    if meta.dom().contains(c) {
        assert(meta[c]@ == column_meta_text(descriptions, tests, c));
        assert(meta[c]@.description == opt_text(meta[c].description));
    }
}

/// Law: the data tests on a column are those of the list that are on it, taken
/// one by one.
pub proof fn law_tests_on(
    all: Seq<(Seq<char>, ColumnTestText)>,
    column: Seq<char>,
    t: ColumnTestText,
    c: Seq<char>,
)
    ensures
        tests_on(Seq::empty(), c) == Seq::<ColumnTestText>::empty(),
        column == c ==> tests_on(all.push((column, t)), c) == tests_on(all, c).push(t),
        column != c ==> tests_on(all.push((column, t)), c) == tests_on(all, c),
{
    assert(all.push((column, t)).drop_last() == all);
}

/// Law: of what is known, exactly the columns of the table are kept, as they
/// are; without a table nothing is.
pub proof fn law_narrowed(
    out: Map<Seq<char>, ColumnMetaPayload>,
    meta: Map<Seq<char>, ColumnMetaPayload>,
    table: Option<&FixtureTable>,
    c: Seq<char>,
)
    requires
        narrowed_to(out, meta, table),
    ensures
        table is None ==> !out.dom().contains(c),
        table matches Some(t) ==> (out.dom().contains(c) <==> meta.dom().contains(c) && exists|
            k: int,
        |
            0 <= k < t.columns@.len() && (#[trigger] t.columns@[k])@ == c),
        out.dom().contains(c) ==> opt_text(out[c].description) == opt_text(meta[c].description)
            && test_texts(out[c].tests@) == test_texts(meta[c].tests@),
{
    if let Some(t) = table {
        let names = texts(t.columns@);
        if names.contains(c) {
            let k = choose|k: int| 0 <= k < names.len() && names[k] == c;
            assert(t.columns@[k]@ == c);
        }
        if exists|k: int| 0 <= k < t.columns@.len() && (#[trigger] t.columns@[k])@ == c {
            let k = choose|k: int| 0 <= k < t.columns@.len() && (#[trigger] t.columns@[k])@ == c;
            assert(names[k] == c);
        }
    }
    if out.dom().contains(c) {
        assert(out[c]@ == meta[c]@);
        assert(out[c]@.tests == test_texts(out[c].tests@));
        assert(out[c]@.description == opt_text(out[c].description));
        assert(meta[c]@.description == opt_text(meta[c].description));
    }
}

} // verus!
