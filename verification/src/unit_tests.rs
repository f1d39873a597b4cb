//! A unit test as the report shows it: its inputs, each bound to a node of
//! the model's graph, and its expectation.
use std::collections::BTreeMap;
use vstd::prelude::*;
use vstd::string::*;
use crate::catalog::{ref_node, resolve_given_ref_node};
use crate::columns::{
    column_meta_for_model, column_meta_for_source, column_meta_for_table, column_meta_text,
    column_tests, has_column_meta, narrowed_to, ColumnMetaPayload, ColumnTestText,
};
use crate::dag::{find_import_node_id, find_source_import_node_id, import_node, source_node};
use crate::domain::{
    source_called, BlockDiff, CteGraph, FixtureTable, Manifest, UnitTest, UnitTestDataDiff,
    UnitTestGiven, UnitTestOverrides,
};
use crate::json::{json_content, value_is_null, value_of_text, JsonContent};
use crate::refs::{parse_ref_name, parse_source_ref, ref_target, source_target};
use crate::table::{StrMap, StrSet};
use crate::text::{opt_text, same_text, texts};

verus! {

/// A fixture that was loaded from a file of its own.
#[derive(Debug, PartialEq)]
pub struct LoadedFixture {
    pub text: String,
    pub format: Option<String>,
    pub table: Option<FixtureTable>,
}

/// The fixtures of a unit test that were loaded from files: those of its
/// inputs by position, and that of its expectation.
#[derive(Debug, PartialEq)]
pub struct ExternalFixtures {
    pub given: BTreeMap<usize, LoadedFixture>,
    pub expect: Option<LoadedFixture>,
}

/// The lines of a YAML file that a unit test or a model is written in.
#[derive(Debug, PartialEq, Eq)]
pub struct UnitTestYamlBlock {
    pub raw: String,
}

// ---------------------------------------------------------------------
// Fixtures
// ---------------------------------------------------------------------

/// The fixture loaded for the input at `ordinal`.
pub open spec fn loaded_at(external: Option<&ExternalFixtures>, ordinal: usize) -> Option<
    LoadedFixture,
> {
    match external {
        Some(e) => if e.given@.dom().contains(ordinal) {
            Some(e.given@[ordinal])
        } else {
            None
        },
        None => None,
    }
}

/// The fixture loaded for the input at `ordinal`.
fn loaded_given<'a>(external: Option<&'a ExternalFixtures>, ordinal: usize) -> (r: Option<
    &'a LoadedFixture,
>)
    ensures
        match r {
            Some(f) => loaded_at(external, ordinal) == Some(*f),
            None => loaded_at(external, ordinal) is None,
        },
{
    broadcast use vstd::std_specs::btree::group_btree_axioms;
    broadcast use vstd::laws_cmp::group_laws_cmp;

    match external {
        Some(e) => e.given.get(&ordinal),
        None => None,
    }
}

/// The rows stand in a file of their own that was not loaded: a fixture is
/// named and the rows are null.
pub open spec fn is_outside(rows: serde_json::Value, fixture: Option<String>) -> bool {
    fixture is Some && json_content(rows) is Null
}

/// The table that is shown of inline rows.
pub open spec fn inline_table(
    rows: serde_json::Value,
    fixture: Option<String>,
    table: Option<FixtureTable>,
) -> Option<FixtureTable> {
    if is_outside(rows, fixture) {
        None
    } else {
        table
    }
}

/// The table that is shown of the rows of a fixture, given the grid that they
/// make: none where the rows stand in a file that was not loaded.
pub fn current_view_table<'a>(
    rows: &serde_json::Value,
    fixture: &Option<String>,
    table: &'a Option<FixtureTable>,
) -> (r: Option<&'a FixtureTable>)
    ensures
        shown_table(r, inline_table(*rows, *fixture, *table)),
{
    if fixture.is_some() && value_is_null(rows) {
        return None;
    }
    table.as_ref()
}

/// `shown` is a reference to the table `t`, where there is one.
pub open spec fn shown_table(shown: Option<&FixtureTable>, t: Option<FixtureTable>) -> bool {
    match shown {
        Some(x) => t == Some(*x),
        None => t is None,
    }
}

/// `rows`, `table` and `format` are what is shown of a fixture: of a loaded
/// one its text, its table and its format; else the inline rows as they are,
/// their table and their format.
pub open spec fn shows_fixture(
    rows: serde_json::Value,
    table: Option<&FixtureTable>,
    format: Option<String>,
    inline_rows: serde_json::Value,
    inline_format: Option<String>,
    fixture: Option<String>,
    grid: Option<FixtureTable>,
    loaded: Option<LoadedFixture>,
) -> bool {
    match loaded {
        Some(f) => {
            &&& json_content(rows) == JsonContent::Text(f.text@)
            &&& shown_table(table, f.table)
            &&& format == f.format
        },
        None => {
            &&& rows == inline_rows
            &&& shown_table(table, inline_table(inline_rows, fixture, grid))
            &&& format == inline_format
        },
    }
}

/// What is shown of a fixture: rows, table and format.
pub fn resolve_fixture_payload<'a>(
    rows: &serde_json::Value,
    format: &Option<String>,
    fixture: &Option<String>,
    grid: &'a Option<FixtureTable>,
    loaded: Option<&'a LoadedFixture>,
) -> (r: (serde_json::Value, Option<&'a FixtureTable>, Option<String>))
    ensures
        shows_fixture(
            r.0,
            r.1,
            r.2,
            *rows,
            *format,
            *fixture,
            *grid,
            match loaded {
                Some(f) => Some(*f),
                None => None,
            },
        ),
{
    match loaded {
        Some(f) => (value_of_text(f.text.clone()), f.table.as_ref(), f.format.clone()),
        None => (rows.clone(), current_view_table(rows, fixture, grid), format.clone()),
    }
}

// ---------------------------------------------------------------------
// Inputs
// ---------------------------------------------------------------------

/// An input of a unit test as the report shows it.
#[derive(Debug, PartialEq)]
pub struct GivenPayload<'a> {
    pub input: String,
    /// The node of the graph that the input binds to.
    pub bound_to_node: Option<String>,
    pub table: Option<&'a FixtureTable>,
    pub rows: serde_json::Value,
    pub format: Option<String>,
    pub fixture: Option<String>,
    /// Whether the input is the model itself.
    pub is_this: bool,
    /// What is known of the columns of the table.
    pub column_meta: StrMap<ColumnMetaPayload>,
}

/// The node that an input binds to: by its `ref`, else by its `source`.
pub open spec fn bound_node(m: Manifest, graph: CteGraph, input: Seq<char>) -> Option<Seq<char>> {
    let by_ref = match ref_target(input) {
        Some(name) => import_node(graph, name),
        None => None,
    };
    match by_ref {
        Some(n) => Some(n),
        None => match source_target(input) {
            Some((source, table)) => source_node(m, graph, source, table),
            None => None,
        },
    }
}

fn bind_given(current: &Manifest, graph: &CteGraph, input: &str) -> (r: Option<String>)
    ensures
        opt_text(r) == bound_node(*current, *graph, input@),
{
    if let Some(name) = parse_ref_name(input) {
        if let Some(n) = find_import_node_id(graph, name) {
            return Some(n);
        }
    }
    match parse_source_ref(input) {
        Some((source, table)) => find_source_import_node_id(current, graph, source, table),
        None => None,
    }
}

/// `out` holds what is known of the columns of `table`, from descriptions and
/// data tests.
pub open spec fn known_of_table(
    out: Map<Seq<char>, ColumnMetaPayload>,
    descriptions: Map<Seq<char>, String>,
    tests: Seq<(Seq<char>, ColumnTestText)>,
    table: Option<&FixtureTable>,
) -> bool {
    &&& forall|c: Seq<char>| #[trigger]
        out.dom().contains(c) <==> has_column_meta(descriptions, tests, c) && table is Some
            && texts(table->0.columns@).contains(c)
    &&& forall|c: Seq<char>| #[trigger]
        out.dom().contains(c) ==> out[c]@ == column_meta_text(descriptions, tests, c)
}

/// `out` holds what is known of the columns of an input: of the model under
/// test for the model itself, of the node behind a `ref`, of the table behind
/// a `source`; nothing where there is no such node or table.
pub open spec fn is_given_meta(
    out: Map<Seq<char>, ColumnMetaPayload>,
    m: Manifest,
    target: Map<Seq<char>, ColumnMetaPayload>,
    input: Seq<char>,
    table: Option<&FixtureTable>,
) -> bool {
    if input == "this"@ {
        narrowed_to(out, target, table)
    } else {
        match ref_target(input) {
            Some(name) => match ref_node(m, name) {
                Some(n) => known_of_table(
                    out,
                    n.column_descriptions@,
                    column_tests(m, n.id@),
                    table,
                ),
                None => out == Map::<Seq<char>, ColumnMetaPayload>::empty(),
            },
            None => match source_target(input) {
                Some((source, name)) => match source_called(m, source, name) {
                    Some(s) => known_of_table(
                        out,
                        s.column_descriptions@,
                        column_tests(m, s.id@),
                        table,
                    ),
                    None => out == Map::<Seq<char>, ColumnMetaPayload>::empty(),
                },
                None => out == Map::<Seq<char>, ColumnMetaPayload>::empty(),
            },
        }
    }
}

fn given_meta(
    current: &Manifest,
    target: &StrMap<ColumnMetaPayload>,
    input: &str,
    table: Option<&FixtureTable>,
) -> (r: StrMap<ColumnMetaPayload>)
    ensures
        is_given_meta(r@, *current, target@, input@, table),
{
    if same_text(input, "this") {
        return column_meta_for_table(target, table);
    }
    if let Some(name) = parse_ref_name(input) {
        return match resolve_given_ref_node(current, name) {
            Some(node) => {
                let meta: StrMap<ColumnMetaPayload> = column_meta_for_model(current, node);
                column_meta_for_table(&meta, table)
            },
            None => StrMap::new(),
        };
    }
    if let Some((source_name, table_name)) = parse_source_ref(input) {
        return match current.source_by_name(source_name, table_name) {
            Some(source) => {
                let meta: StrMap<ColumnMetaPayload> = column_meta_for_source(current, source);
                column_meta_for_table(&meta, table)
            },
            None => StrMap::new(),
        };
    }
    StrMap::new()
}

/// `p` shows the input `g` at `ordinal`.
pub open spec fn shows_given(
    p: GivenPayload<'_>,
    g: UnitTestGiven,
    ordinal: int,
    m: Manifest,
    graph: CteGraph,
    external: Option<&ExternalFixtures>,
    target: Map<Seq<char>, ColumnMetaPayload>,
) -> bool {
    &&& p.input == g.input
    &&& opt_text(p.bound_to_node) == bound_node(m, graph, g.input@)
    &&& shows_fixture(
        p.rows,
        p.table,
        p.format,
        g.rows,
        g.format,
        g.fixture,
        g.table,
        loaded_at(external, ordinal as usize),
    )
    &&& p.fixture == g.fixture
    &&& p.is_this == (g.input@ == "this"@)
    &&& is_given_meta(p.column_meta@, m, target, g.input@, p.table)
}

/// An input of a unit test as the report shows it.
fn build_given_payload<'a>(
    g: &'a UnitTestGiven,
    ordinal: usize,
    current: &Manifest,
    graph: &CteGraph,
    external: Option<&'a ExternalFixtures>,
    target: &StrMap<ColumnMetaPayload>,
) -> (r: GivenPayload<'a>)
    ensures
        shows_given(r, *g, ordinal as int, *current, *graph, external, target@),
{
    let input: &str = g.input.as_str();
    let loaded: Option<&'a LoadedFixture> = loaded_given(external, ordinal);
    let (rows, table, format) = resolve_fixture_payload(
        &g.rows,
        &g.format,
        &g.fixture,
        &g.table,
        loaded,
    );
    let column_meta: StrMap<ColumnMetaPayload> = given_meta(current, target, input, table);
    GivenPayload {
        input: g.input.clone(),
        bound_to_node: bind_given(current, graph, input),
        table,
        rows,
        format,
        fixture: g.fixture.clone(),
        is_this: same_text(input, "this"),
        column_meta,
    }
}

// ---------------------------------------------------------------------
// Unit tests
// ---------------------------------------------------------------------

/// The expectation of a unit test as the report shows it.
#[derive(Debug, PartialEq)]
pub struct ExpectedPayload<'a> {
    pub table: Option<&'a FixtureTable>,
    pub rows: serde_json::Value,
    pub format: Option<String>,
    pub fixture: Option<String>,
    pub column_meta: StrMap<ColumnMetaPayload>,
}

/// A unit test as the report shows it.
#[derive(Debug, PartialEq)]
pub struct TestPayload<'a> {
    pub id: String,
    pub name: String,
    pub target_model: String,
    /// Whether the test itself changed.
    pub changed: bool,
    pub description: Option<String>,
    pub tags: Option<&'a Vec<String>>,
    pub meta: Option<serde_json::Value>,
    pub defined_in: Option<String>,
    pub authoring_yaml: Option<String>,
    pub yaml_diff: Option<&'a BlockDiff>,
    pub data_diff: Option<&'a UnitTestDataDiff>,
    pub is_incremental_mode: Option<bool>,
    pub overrides: Option<&'a UnitTestOverrides>,
    pub given: Vec<GivenPayload<'a>>,
    pub expected: ExpectedPayload<'a>,
}

/// `o` refers to the value of `v`, where there is one.
pub open spec fn refers<T>(o: Option<&T>, v: Option<T>) -> bool {
    match o {
        Some(x) => v == Some(*x),
        None => v is None,
    }
}

/// What is known of a unit test beside the manifest: the lines that it is
/// written in, how they changed, how its data changed, and its fixtures that
/// were loaded from files.
#[derive(Debug, Clone, Copy)]
pub struct TestExtras<'a> {
    pub authoring_yaml: Option<&'a UnitTestYamlBlock>,
    pub yaml_diff: Option<&'a BlockDiff>,
    pub data_diff: Option<&'a UnitTestDataDiff>,
    pub external: Option<&'a ExternalFixtures>,
}

/// `e` shows the expectation of `t`.
pub open spec fn shows_expected(
    e: ExpectedPayload<'_>,
    t: UnitTest,
    external: Option<&ExternalFixtures>,
    target: Map<Seq<char>, ColumnMetaPayload>,
) -> bool {
    &&& shows_fixture(
        e.rows,
        e.table,
        e.format,
        t.expect.rows,
        t.expect.format,
        t.expect.fixture,
        t.expect.table,
        match external {
            Some(x) => x.expect,
            None => None,
        },
    )
    &&& e.fixture == t.expect.fixture
    &&& narrowed_to(e.column_meta@, target, e.table)
}

/// `p` shows the unit test `t` with the id `id`.
pub open spec fn shows_test(
    p: TestPayload<'_>,
    id: Seq<char>,
    t: UnitTest,
    graph: CteGraph,
    changed: Set<Seq<char>>,
    extras: TestExtras<'_>,
    m: Manifest,
    target: Map<Seq<char>, ColumnMetaPayload>,
) -> bool {
    &&& p.id@ == id
    &&& p.name == t.name
    &&& p.target_model == t.model
    &&& p.changed == changed.contains(id)
    &&& p.description == t.description
    &&& refers(p.tags, t.tags)
    &&& p.meta == t.meta
    &&& p.defined_in == t.original_file_path
    &&& p.authoring_yaml == match extras.authoring_yaml {
        Some(b) => Some(b.raw),
        None => None,
    }
    &&& p.yaml_diff == extras.yaml_diff
    &&& p.data_diff == extras.data_diff
    &&& p.is_incremental_mode == t.is_incremental_mode
    &&& refers(p.overrides, t.overrides)
    &&& p.given@.len() == t.given@.len()
    &&& forall|i: int|
        0 <= i < p.given@.len() ==> shows_given(
            #[trigger] p.given@[i],
            t.given@[i],
            i,
            m,
            graph,
            extras.external,
            target,
        )
    &&& shows_expected(p.expected, t, extras.external, target)
}

/// A unit test as the report shows it.
pub fn build_test_payload<'a>(
    id: &str,
    unit_test: &'a UnitTest,
    graph: &CteGraph,
    changed: &StrSet,
    extras: TestExtras<'a>,
    current: &Manifest,
    target_column_meta: &StrMap<ColumnMetaPayload>,
) -> (r: TestPayload<'a>)
    ensures
        shows_test(
            r,
            id@,
            *unit_test,
            *graph,
            changed@,
            extras,
            *current,
            target_column_meta@,
        ),
{
    let mut given: Vec<GivenPayload<'a>> = Vec::new();
    let mut ordinal: usize = 0;
    while ordinal < unit_test.given.len()
        invariant
            ordinal <= unit_test.given@.len(),
            given@.len() == ordinal,
            forall|i: int|
                0 <= i < ordinal ==> shows_given(
                    #[trigger] given@[i],
                    unit_test.given@[i],
                    i,
                    *current,
                    *graph,
                    extras.external,
                    target_column_meta@,
                ),
        decreases unit_test.given@.len() - ordinal,
    {
        given.push(
            build_given_payload(
                &unit_test.given[ordinal],
                ordinal,
                current,
                graph,
                extras.external,
                target_column_meta,
            ),
        );
        ordinal += 1;
    }
    let loaded: Option<&'a LoadedFixture> = match extras.external {
        Some(e) => e.expect.as_ref(),
        None => None,
    };
    let (rows, table, format) = resolve_fixture_payload(
        &unit_test.expect.rows,
        &unit_test.expect.format,
        &unit_test.expect.fixture,
        &unit_test.expect.table,
        loaded,
    );
    let column_meta: StrMap<ColumnMetaPayload> = column_meta_for_table(target_column_meta, table);
    let authoring_yaml: Option<String> = match extras.authoring_yaml {
        Some(b) => Some(b.raw.clone()),
        None => None,
    };
    TestPayload {
        id: id.to_owned(),
        name: unit_test.name.clone(),
        target_model: unit_test.model.clone(),
        changed: changed.contains(id),
        description: unit_test.description.clone(),
        tags: unit_test.tags.as_ref(),
        meta: unit_test.meta.clone(),
        defined_in: unit_test.original_file_path.clone(),
        authoring_yaml,
        yaml_diff: extras.yaml_diff,
        data_diff: extras.data_diff,
        is_incremental_mode: unit_test.is_incremental_mode,
        overrides: unit_test.overrides.as_ref(),
        given,
        expected: ExpectedPayload {
            table,
            rows,
            format,
            fixture: unit_test.expect.fixture.clone(),
            column_meta,
        },
    }
}

/// Law: an input whose rows stand in a file that was not loaded shows no
/// table, and shows the name of the file's fixture and null rows.
pub proof fn law_outside_rows_show_no_table(
    p: GivenPayload<'_>,
    g: UnitTestGiven,
    ordinal: int,
    m: Manifest,
    graph: CteGraph,
    external: Option<&ExternalFixtures>,
    target: Map<Seq<char>, ColumnMetaPayload>,
)
    requires
        shows_given(p, g, ordinal, m, graph, external, target),
        is_outside(g.rows, g.fixture),
        loaded_at(external, ordinal as usize) is None,
    ensures
        p.table is None,
        p.fixture is Some,
        json_content(p.rows) is Null,
{
}

/// Law: a unit test is shown with everything that the manifest has of it, with
/// what was gathered under its id, and as changed exactly where its id is
/// among the changed ones.
pub proof fn law_test_shown(
    p: TestPayload<'_>,
    id: Seq<char>,
    t: UnitTest,
    graph: CteGraph,
    changed: Set<Seq<char>>,
    extras: TestExtras<'_>,
    m: Manifest,
    target: Map<Seq<char>, ColumnMetaPayload>,
)
    requires
        shows_test(p, id, t, graph, changed, extras, m, target),
    ensures
        p.id@ == id,
        p.name == t.name,
        p.target_model == t.model,
        p.changed <==> changed.contains(id),
        p.description == t.description,
        p.tags is Some <==> t.tags is Some,
        p.tags matches Some(x) ==> t.tags == Some(*x),
        p.meta == t.meta,
        p.defined_in == t.original_file_path,
        p.authoring_yaml is Some <==> extras.authoring_yaml is Some,
        extras.authoring_yaml matches Some(b) ==> p.authoring_yaml == Some(b.raw),
        p.yaml_diff == extras.yaml_diff,
        p.data_diff == extras.data_diff,
        p.is_incremental_mode == t.is_incremental_mode,
        p.overrides is Some <==> t.overrides is Some,
        p.overrides matches Some(x) ==> t.overrides == Some(*x),
        p.given@.len() == t.given@.len(),
        forall|i: int|
            0 <= i < p.given@.len() ==> shows_given(
                #[trigger] p.given@[i],
                t.given@[i],
                i,
                m,
                graph,
                extras.external,
                target,
            ),
        shows_expected(p.expected, t, extras.external, target),
{
}

/// Law: a fixture that was loaded for an input, or for the expectation, is
/// shown by its text, its table and its format; without one the rows of the
/// manifest are shown as they are, with their format and their table, but
/// without a table where they stand in a file that was not loaded.
pub proof fn law_fixture_shown(
    p: GivenPayload<'_>,
    g: UnitTestGiven,
    ordinal: usize,
    e: ExpectedPayload<'_>,
    t: UnitTest,
    m: Manifest,
    graph: CteGraph,
    external: Option<&ExternalFixtures>,
    target: Map<Seq<char>, ColumnMetaPayload>,
)
    requires
        shows_given(p, g, ordinal as int, m, graph, external, target),
        shows_expected(e, t, external, target),
    ensures
        ({
            let loaded = external is Some && external->0.given@.dom().contains(ordinal);
            let f = external->0.given@[ordinal];
            &&& loaded ==> json_content(p.rows) == JsonContent::Text(f.text@) && p.format
                == f.format && (p.table is Some <==> f.table is Some) && (p.table is Some ==> Some(
                *p.table->0,
            ) == f.table)
            &&& !loaded ==> p.rows == g.rows && p.format == g.format
            &&& !loaded && g.fixture is Some && json_content(g.rows) is Null ==> p.table is None
            &&& !loaded && (g.fixture is None || !(json_content(g.rows) is Null)) ==> (p.table
                is Some <==> g.table is Some) && (p.table is Some ==> Some(*p.table->0) == g.table)
        }),
        ({
            let loaded = external is Some && external->0.expect is Some;
            let f = external->0.expect->0;
            let x = t.expect;
            &&& loaded ==> json_content(e.rows) == JsonContent::Text(f.text@) && e.format
                == f.format && (e.table is Some <==> f.table is Some) && (e.table is Some ==> Some(
                *e.table->0,
            ) == f.table)
            &&& !loaded ==> e.rows == x.rows && e.format == x.format
            &&& !loaded && x.fixture is Some && json_content(x.rows) is Null ==> e.table is None
            &&& !loaded && (x.fixture is None || !(json_content(x.rows) is Null)) ==> (e.table
                is Some <==> x.table is Some) && (e.table is Some ==> Some(*e.table->0) == x.table)
        }),
        e.fixture == t.expect.fixture,
        narrowed_to(e.column_meta@, target, e.table),
{
}

/// Law: an input is shown as it is written, with the fixture it names, whether
/// it is the model itself, and the node that it binds to: by its `ref`, or
/// else by its `source`.
pub proof fn law_given_shown(
    p: GivenPayload<'_>,
    g: UnitTestGiven,
    ordinal: int,
    m: Manifest,
    graph: CteGraph,
    external: Option<&ExternalFixtures>,
    target: Map<Seq<char>, ColumnMetaPayload>,
)
    requires
        shows_given(p, g, ordinal, m, graph, external, target),
    ensures
        p.input == g.input,
        p.fixture == g.fixture,
        p.is_this <==> g.input@ == "this"@,
        ref_target(g.input@) matches Some(name) ==> import_node(graph, name) matches Some(n)
            ==> opt_text(p.bound_to_node) == Some(n),
        ref_target(g.input@) matches Some(name) ==> import_node(graph, name) is None && source_target(
            g.input@,
        ) is None ==> p.bound_to_node is None,
        ref_target(g.input@) is None ==> (source_target(g.input@) matches Some((source, table))
            ==> opt_text(p.bound_to_node) == source_node(m, graph, source, table)),
        ref_target(g.input@) is None && source_target(g.input@) is None ==> p.bound_to_node is None,
{
}

/// Law: the columns of an input are described by the table that it stands for:
/// the model under test for the model itself, the node behind its `ref`, or
/// the table behind its `source`; an input that stands for none of these has
/// nothing known of its columns.
pub proof fn law_given_columns(
    p: GivenPayload<'_>,
    g: UnitTestGiven,
    ordinal: int,
    m: Manifest,
    graph: CteGraph,
    external: Option<&ExternalFixtures>,
    target: Map<Seq<char>, ColumnMetaPayload>,
    c: Seq<char>,
)
    requires
        shows_given(p, g, ordinal, m, graph, external, target),
    ensures
        ({
            let out = p.column_meta@;
            let itself = g.input@ == "this"@;
            let name = ref_target(g.input@);
            let pair = source_target(g.input@);
            let shown = p.table is Some && texts(p.table->0.columns@).contains(c);
            &&& itself ==> narrowed_to(out, target, p.table)
            &&& !itself && name is Some && ref_node(m, name->0) is Some ==> {
                let n = ref_node(m, name->0)->0;
                let tests = column_tests(m, n.id@);
                &&& out.dom().contains(c) <==> shown && has_column_meta(
                    n.column_descriptions@,
                    tests,
                    c,
                )
                &&& out.dom().contains(c) ==> out[c]@ == column_meta_text(
                    n.column_descriptions@,
                    tests,
                    c,
                )
            }
            &&& !itself && name is Some && ref_node(m, name->0) is None ==> !out.dom().contains(c)
            &&& !itself && name is None && pair is Some && source_called(
                m,
                (pair->0).0,
                (pair->0).1,
            ) is Some ==> {
                let s = source_called(m, (pair->0).0, (pair->0).1)->0;
                let tests = column_tests(m, s.id@);
                &&& out.dom().contains(c) <==> shown && has_column_meta(
                    s.column_descriptions@,
                    tests,
                    c,
                )
                &&& out.dom().contains(c) ==> out[c]@ == column_meta_text(
                    s.column_descriptions@,
                    tests,
                    c,
                )
            }
            &&& !itself && name is None && pair is Some && source_called(
                m,
                (pair->0).0,
                (pair->0).1,
            ) is None ==> !out.dom().contains(c)
            &&& !itself && name is None && pair is None ==> !out.dom().contains(c)
        }),
{
}

} // verus!
