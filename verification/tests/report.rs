//! The data of a report: models, unit tests and what is marked on them.
use cute_report::columns::ColumnTestPayload;
use cute_report::dag::NodeRole;
use cute_report::domain::{
    BlockDiff, CteEdge, CteGraph, CteNode, DiffLine, DiffLineKind, EdgeType, FixtureTable,
    FixtureTableDiff, Manifest, Node, SourceNode, TestMetadata, UnitTest, UnitTestDataDiff,
    UnitTestExpect, UnitTestGiven, UnitTestOverrides, TERMINAL_NODE_NAME,
};
use cute_report::findings::{CheckSpec, DegradedBacking, Evidence, Finding, VerdictStatus};
use cute_report::macros::ScopeSource;
use cute_report::panel::{ConfigAttribution, ProjectChangePanel};
use cute_report::report::{
    build_payload, build_payload_with_externals, compose_banner_text, compose_report,
    model_state_wire, model_yaml_payload, AxesPayload, ChangeAxes, ColumnContext,
    ColumnContextTest, ModelAnalysis, ModelState, ModelYamlOutcome, PrRef, ProjectFacts,
    ReportPayload, Surroundings, VarReference, BANNER_EMPTY_SCOPE,
};
use cute_report::span::byte_span;
use cute_report::table::{StrMap, StrSet};
use cute_report::unit_tests::{
    build_test_payload, ExternalFixtures, LoadedFixture, TestExtras, TestPayload,
    UnitTestYamlBlock,
};

fn json(text: &str) -> serde_json::Value {
    serde_json::from_str(text).unwrap()
}

fn set(ids: &[&str]) -> StrSet {
    let mut out = StrSet::new();
    for id in ids {
        out.insert((*id).to_owned());
    }
    out
}

fn map<V>(entries: Vec<(&str, V)>) -> StrMap<V> {
    let mut out = StrMap::new();
    for (k, v) in entries {
        out.insert(k.to_owned(), v);
    }
    out
}

fn keys<V>(map: &StrMap<V>) -> Vec<&str> {
    (0..map.len()).map(|i| map.key_at(i).as_str()).collect()
}

fn model_node(id: &str, compiled: Option<&str>) -> Node {
    model_node_with_raw(id, compiled, None)
}

fn model_node_with_raw(id: &str, compiled: Option<&str>, raw: Option<&str>) -> Node {
    let mut node = Node::new(id, "model");
    node.compiled_code = compiled.map(str::to_owned);
    node.raw_code = raw.map(str::to_owned);
    node
}

fn incremental_model_node(id: &str, compiled: Option<&str>) -> Node {
    let mut node = model_node(id, compiled);
    node.materialized = Some("incremental".to_owned());
    node
}

fn given(input: &str) -> UnitTestGiven {
    UnitTestGiven::new(input, json("[]"))
}

fn given_with_table(input: &str, rows: &str, columns: &[&str]) -> UnitTestGiven {
    let mut given = UnitTestGiven::new(input, json(rows));
    given.format = Some("dict".to_owned());
    given.table = Some(table(columns));
    given
}

fn table(columns: &[&str]) -> FixtureTable {
    FixtureTable {
        columns: columns.iter().map(|c| (*c).to_owned()).collect(),
        rows: Vec::new(),
    }
}

fn expect(rows: &str, columns: &[&str]) -> UnitTestExpect {
    let mut expect = UnitTestExpect::new(json(rows));
    expect.format = Some("dict".to_owned());
    expect.table = Some(table(columns));
    expect
}

fn unit_test(name: &str, model: &str, given: Vec<UnitTestGiven>) -> UnitTest {
    UnitTest::new(name, model, given, UnitTestExpect::new(json("[]")))
}

fn simple_unit_test(model_bare: &str, name: &str) -> UnitTest {
    let mut test = unit_test(name, model_bare, vec![given(&format!("ref('{model_bare}_src')"))]);
    test.description = Some("a description".to_owned());
    test.tags = Some(vec!["finance".to_owned()]);
    test.meta = Some(json(r#"{"owner": "team"}"#));
    test.original_file_path = Some("models/x.yml".to_owned());
    test
}

fn manifest_for(nodes: Vec<Node>, tests: Vec<(&str, UnitTest)>) -> Manifest {
    let mut manifest = Manifest::new();
    for node in nodes {
        manifest.add_node(node);
    }
    for (id, test) in tests {
        manifest.unit_tests.insert(id.to_owned(), test);
    }
    manifest
}

fn manifest_with_sources(
    nodes: Vec<Node>,
    tests: Vec<(&str, UnitTest)>,
    sources: Vec<SourceNode>,
) -> Manifest {
    let mut manifest = manifest_for(nodes, tests);
    for source in sources {
        manifest.add_source(source);
    }
    manifest
}

fn source(id: &str, source_name: &str, name: &str, identifier: Option<&str>, relation: Option<&str>) -> SourceNode {
    SourceNode {
        id: id.to_owned(),
        source_name: source_name.to_owned(),
        name: name.to_owned(),
        identifier: identifier.map(str::to_owned),
        relation_name: relation.map(str::to_owned),
        column_descriptions: StrMap::new(),
    }
}

fn metadata(name: &str, namespace: Option<&str>, kwargs: &str) -> TestMetadata {
    TestMetadata {
        name: name.to_owned(),
        namespace: namespace.map(str::to_owned),
        kwargs: json(kwargs),
    }
}

fn test_node(id: &str, attached: &str, column: Option<&str>, tm: TestMetadata) -> Node {
    let mut node = Node::new(id, "test");
    node.attached_node = Some(attached.to_owned());
    node.column_name = column.map(str::to_owned);
    node.test_metadata = Some(tm);
    node
}

fn bare_test(name: &str) -> ColumnTestPayload {
    ColumnTestPayload { name: name.to_owned(), ..ColumnTestPayload::default() }
}

/// A node of a graph: its name, whether it is a plain select, the tables that
/// its body reads, and the text of its body.
fn cte(compiled: &str, name: &str, simple: bool, tables: &[&str], body: &str) -> CteNode {
    let mut node = CteNode::new(name);
    node.is_simple_from_shape = simple;
    node.body_leaf_table_refs = tables.iter().map(|t| (*t).to_owned()).collect();
    let start = compiled.rfind(body).expect("the body stands in the compiled code");
    node.span = byte_span(compiled, start, start + body.len());
    node
}

fn edge(from: usize, to: usize) -> CteEdge {
    CteEdge { from, to, edge_type: EdgeType::From }
}

fn analysed(graph: CteGraph) -> ModelAnalysis {
    ModelAnalysis { graph, ..ModelAnalysis::default() }
}

/// The data of a report on the given models without anything gathered beside
/// the manifest, handed to a check.
fn with_payload(
    manifest: &Manifest,
    changed: &[&str],
    models: &[&str],
    analyses: Vec<(&str, ModelAnalysis)>,
    check: impl Fn(&ReportPayload<'_>),
) {
    let (yaml, diffs, outcomes, data) = (StrMap::new(), StrMap::new(), StrMap::new(), StrMap::new());
    let payload = build_payload(
        manifest,
        &set(changed),
        &set(models),
        &yaml,
        &diffs,
        &diffs,
        &outcomes,
        &data,
        "b",
        map(analyses),
    );
    check(&payload);
}

/// The same with facts on the project and marks on the models.
fn with_marks(
    manifest: &Manifest,
    models: &[&str],
    facts: &ProjectFacts,
    axes: &StrMap<ChangeAxes>,
    states: &StrMap<ModelState>,
    check: impl Fn(&ReportPayload<'_>),
) {
    let (yaml, diffs, outcomes, data) = (StrMap::new(), StrMap::new(), StrMap::new(), StrMap::new());
    let fixtures = StrMap::new();
    let payload = build_payload_with_externals(
        manifest,
        &StrSet::new(),
        &set(models),
        &yaml,
        &diffs,
        &diffs,
        &outcomes,
        &data,
        &fixtures,
        "",
        StrMap::new(),
        facts,
        axes,
        states,
    );
    check(&payload);
}

fn no_extras<'a>() -> TestExtras<'a> {
    TestExtras { authoring_yaml: None, yaml_diff: None, data_diff: None, external: None }
}

/// A unit test on an empty graph, handed to a check.
fn with_test(manifest: &Manifest, test: &UnitTest, target: Option<&str>, check: impl Fn(&TestPayload<'_>)) {
    let meta = match target {
        Some(id) => cute_report::columns::column_meta_for_model(manifest, manifest.nodes.get(id).unwrap()),
        None => StrMap::new(),
    };
    let payload = build_test_payload(
        "unit_test.shop.t",
        test,
        &CteGraph::default(),
        &StrSet::new(),
        no_extras(),
        manifest,
        &meta,
    );
    check(&payload);
}

// ---------------------------------------------------------------------
// Banner, states, YAML
// ---------------------------------------------------------------------

#[test]
fn compose_banner_text_empty_scope_is_the_locked_constant() {
    assert_eq!(compose_banner_text(&StrSet::new()), BANNER_EMPTY_SCOPE);
}

#[test]
fn compose_banner_text_single_test_uses_singular_noun() {
    let one = set(&["unit_test.shop.a"]);
    assert_eq!(compose_banner_text(&one), "Showing 1 unit test in scope");
}

#[test]
fn compose_banner_text_multiple_tests_use_plural_noun() {
    let many = set(&["unit_test.shop.a", "unit_test.shop.b"]);
    assert_eq!(compose_banner_text(&many), "Showing 2 unit tests in scope");
}

#[test]
fn model_state_wire_maps_every_variant() {
    assert_eq!(model_state_wire(ModelState::New), "new");
    assert_eq!(model_state_wire(ModelState::Modified), "modified");
    assert_eq!(model_state_wire(ModelState::Removed), "removed");
}

#[test]
fn axes_carry_over_bit_by_bit() {
    let payload = AxesPayload::from(ChangeAxes { body: true, config: false, unit_test: true });
    assert_eq!(payload, AxesPayload { body: true, config: false, unit_test: true });
}

#[test]
fn model_yaml_payload_degrades_truthfully_per_outcome() {
    let outcome = ModelYamlOutcome::NoPatchPath;
    let no_patch = model_yaml_payload(Some(&outcome), "dim_x").expect("payload");
    assert!(no_patch.raw.is_none() && no_patch.path.is_none());
    let msg = no_patch.missing.expect("degrade copy");
    assert!(
        msg.contains("No schema file declares this model"),
        "names the absence: {msg}"
    );

    let outcome = ModelYamlOutcome::NoProjectRoot { path: "models/schema.yml".to_owned() };
    let no_root = model_yaml_payload(Some(&outcome), "dim_x").expect("payload");
    assert_eq!(no_root.path.as_deref(), Some("models/schema.yml"));
    let msg = no_root.missing.expect("degrade copy");
    assert!(msg.contains("models/schema.yml"), "names the file: {msg}");
    assert!(
        msg.contains("--project-root"),
        "names the remediation flag: {msg}"
    );

    let outcome = ModelYamlOutcome::FileMissing { path: "models/gone.yml".to_owned() };
    let missing_file = model_yaml_payload(Some(&outcome), "dim_x").expect("payload");
    let msg = missing_file.missing.expect("degrade copy");
    assert!(msg.contains("models/gone.yml"), "names the file: {msg}");
    assert!(msg.contains("not found"), "states the failure: {msg}");

    let outcome = ModelYamlOutcome::Unreadable { path: "models/locked.yml".to_owned() };
    let unreadable = model_yaml_payload(Some(&outcome), "dim_x").expect("payload");
    let msg = unreadable.missing.expect("degrade copy");
    assert!(msg.contains("models/locked.yml"), "names the file: {msg}");
    assert!(
        msg.contains("could not be read"),
        "states the failure: {msg}"
    );

    let outcome = ModelYamlOutcome::EntryNotFound { path: "models/schema.yml".to_owned() };
    let not_found = model_yaml_payload(Some(&outcome), "dim_x").expect("payload");
    let msg = not_found.missing.expect("degrade copy");
    assert_eq!(msg, "No models: entry named \"dim_x\" was found in models/schema.yml.");
    assert!(msg.contains("dim_x"), "names the model: {msg}");
    assert!(msg.contains("models/schema.yml"), "names the file: {msg}");

    assert!(
        model_yaml_payload(None, "dim_x").is_none(),
        "no gather outcome → no payload (section hidden)"
    );
}

// ---------------------------------------------------------------------
// Marks
// ---------------------------------------------------------------------

#[test]
fn build_payload_attaches_config_attribution_chips_to_widened_models() {
    let manifest = manifest_for(
        vec![
            model_node("model.shop.fct_orders", Some("select 1")),
            model_node("model.shop.stg_raw", Some("select 1")),
        ],
        vec![],
    );
    let chips = || {
        vec![ConfigAttribution {
            key: "materialized".to_owned(),
            path: "models.shop.marts".to_owned(),
        }]
    };
    let facts = ProjectFacts {
        config_attributions: map(vec![("model.shop.fct_orders", chips())]),
        ..ProjectFacts::default()
    };
    with_marks(
        &manifest,
        &["model.shop.fct_orders", "model.shop.stg_raw"],
        &facts,
        &StrMap::new(),
        &StrMap::new(),
        |payload| {
            let fct = payload
                .models
                .iter()
                .find(|m| m.name == "fct_orders")
                .expect("widened model renders");
            assert_eq!(fct.config_attributions, Some(&chips()));
            let stg = payload
                .models
                .iter()
                .find(|m| m.name == "stg_raw")
                .expect("unattributed model renders");
            assert!(stg.config_attributions.is_none());
        },
    );
}

#[test]
fn build_payload_attaches_axes_and_config_file_to_in_scope_models() {
    let schema = "models/shop/_shop__models.yml";
    let patched = |id: &str| {
        let mut node = model_node(id, Some("select 1"));
        node.patch_path = Some(schema.to_owned());
        node
    };
    let manifest = manifest_for(
        vec![patched("model.shop.fct_orders"), patched("model.shop.stg_raw")],
        vec![],
    );
    let axes = map(vec![
        ("model.shop.fct_orders", ChangeAxes { body: true, config: true, unit_test: false }),
        ("model.shop.stg_raw", ChangeAxes { body: false, config: true, unit_test: true }),
    ]);
    with_marks(
        &manifest,
        &["model.shop.fct_orders", "model.shop.stg_raw"],
        &ProjectFacts::default(),
        &axes,
        &StrMap::new(),
        |payload| {
            let fct = payload
                .models
                .iter()
                .find(|m| m.name == "fct_orders")
                .expect("model renders");
            let fct_axes = fct.axes.expect("axes present in pr-diff mode");
            assert!(fct_axes.body && fct_axes.config && !fct_axes.unit_test);
            assert_eq!(fct.config_file.as_deref(), Some(schema));
            let stg = payload
                .models
                .iter()
                .find(|m| m.name == "stg_raw")
                .expect("model renders");
            let stg_axes = stg.axes.expect("axes present in pr-diff mode");
            assert!(!stg_axes.body && stg_axes.config && stg_axes.unit_test);
            assert_eq!(stg.config_file.as_deref(), Some(schema));
        },
    );
}

#[test]
fn build_payload_omits_axes_and_config_file_in_baseline_mode() {
    let mut node = model_node("model.shop.fct_orders", Some("select 1"));
    node.patch_path = Some("models/shop/_shop__models.yml".to_owned());
    let manifest = manifest_for(vec![node], vec![]);
    with_marks(
        &manifest,
        &["model.shop.fct_orders"],
        &ProjectFacts::default(),
        &StrMap::new(),
        &StrMap::new(),
        |payload| {
            let fct = &payload.models[0];
            assert!(fct.axes.is_none(), "baseline mode carries no axes");
            assert!(
                fct.config_file.is_none(),
                "config_file is gated to axes-present models"
            );
        },
    );
}

#[test]
fn build_payload_attaches_new_and_modified_state_to_in_scope_models() {
    let manifest = manifest_for(
        vec![
            model_node("model.shop.fct_new", Some("select 1")),
            model_node("model.shop.dim_mod", Some("select 1")),
        ],
        vec![],
    );
    let states = map(vec![
        ("model.shop.fct_new", ModelState::New),
        ("model.shop.dim_mod", ModelState::Modified),
    ]);
    with_marks(
        &manifest,
        &["model.shop.fct_new", "model.shop.dim_mod"],
        &ProjectFacts::default(),
        &StrMap::new(),
        &states,
        |payload| {
            let new_model = payload
                .models
                .iter()
                .find(|m| m.name == "fct_new")
                .expect("model renders");
            assert_eq!(new_model.state, Some("new"));
            let mod_model = payload
                .models
                .iter()
                .find(|m| m.name == "dim_mod")
                .expect("model renders");
            assert_eq!(mod_model.state, Some("modified"));
        },
    );
}

#[test]
fn a_removed_state_is_no_mark_on_a_model() {
    let manifest = manifest_for(vec![model_node("model.shop.a", Some("select 1"))], vec![]);
    let states = map(vec![("model.shop.a", ModelState::Removed)]);
    with_marks(
        &manifest,
        &["model.shop.a"],
        &ProjectFacts::default(),
        &StrMap::new(),
        &states,
        |payload| assert!(payload.models[0].state.is_none()),
    );
}

#[test]
fn build_payload_omits_state_in_baseline_mode() {
    let manifest = manifest_for(vec![model_node("model.shop.fct_orders", Some("select 1"))], vec![]);
    with_marks(
        &manifest,
        &["model.shop.fct_orders"],
        &ProjectFacts::default(),
        &StrMap::new(),
        &StrMap::new(),
        |payload| assert!(payload.models[0].state.is_none()),
    );
}

#[test]
fn build_payload_attaches_var_reference_chips_to_in_scope_models() {
    let manifest = manifest_for(
        vec![
            model_node("model.shop.mart_dq", Some("select 1")),
            model_node("model.shop.stg_raw", Some("select 1")),
        ],
        vec![],
    );
    let facts = ProjectFacts {
        var_references: map(vec![(
            "model.shop.mart_dq",
            vec![VarReference {
                name: "dq_threshold".to_owned(),
                tier: "direct".to_owned(),
                via: None,
            }],
        )]),
        ..ProjectFacts::default()
    };
    with_marks(
        &manifest,
        &["model.shop.mart_dq", "model.shop.stg_raw"],
        &facts,
        &StrMap::new(),
        &StrMap::new(),
        |payload| {
            let mart = payload
                .models
                .iter()
                .find(|m| m.name == "mart_dq")
                .expect("referencing model renders");
            let references = mart.var_references.expect("references present");
            assert_eq!(references.len(), 1);
            assert_eq!(references[0].name, "dq_threshold");
            let stg = payload
                .models
                .iter()
                .find(|m| m.name == "stg_raw")
                .expect("unreferencing model renders");
            assert!(stg.var_references.is_none());
        },
    );
}

// ---------------------------------------------------------------------
// Models
// ---------------------------------------------------------------------

#[test]
fn build_payload_threads_baseline_label_through() {
    let manifest = manifest_for(vec![], vec![]);
    let none = StrMap::new();
    let diffs = StrMap::new();
    let yaml = StrMap::new();
    let data = StrMap::new();
    let payload = build_payload(
        &manifest,
        &StrSet::new(),
        &StrSet::new(),
        &none,
        &diffs,
        &diffs,
        &yaml,
        &data,
        "main@a1f3c7e",
        StrMap::new(),
    );
    assert_eq!(payload.baseline, "main@a1f3c7e");
    assert!(payload.models.is_empty());
}

#[test]
fn build_payload_emits_one_model_entry_per_model_in_scope() {
    let compiled = "with stg_orders_src as (select * from raw_orders) \
                    select * from stg_orders_src";
    let node = model_node("model.shop.stg_orders", Some(compiled));
    let ut = simple_unit_test("stg_orders", "test_one");
    let manifest = manifest_for(vec![node], vec![("unit_test.shop.test_one", ut)]);
    with_payload(
        &manifest,
        &["unit_test.shop.test_one"],
        &["model.shop.stg_orders"],
        vec![],
        |payload| {
            assert_eq!(payload.models.len(), 1);
            let model = &payload.models[0];
            assert_eq!(model.name, "stg_orders");
            assert_eq!(model.tests.len(), 1);
            assert_eq!(model.tests[0].name, "test_one");
            assert!(
                model.tests[0].changed,
                "test_one is in the changed set → tagged updated",
            );
        },
    );
}

#[test]
fn model_payload_threads_the_models_original_file_path() {
    let mut node = model_node("model.shop.stg_orders", Some("select 1"));
    node.original_file_path = Some("models/staging/stg_orders.sql".to_owned());
    let ut = simple_unit_test("stg_orders", "test_one");
    let manifest = manifest_for(vec![node], vec![("unit_test.shop.test_one", ut)]);
    with_payload(
        &manifest,
        &["unit_test.shop.test_one"],
        &["model.shop.stg_orders"],
        vec![],
        |payload| {
            assert_eq!(
                payload.models[0].path.as_deref(),
                Some("models/staging/stg_orders.sql"),
                "ModelPayload.path carries the manifest original_file_path verbatim",
            );
        },
    );
}

#[test]
fn model_payload_path_is_omitted_when_the_manifest_carries_none() {
    let node = model_node("model.shop.stg_orders", Some("select 1"));
    let ut = simple_unit_test("stg_orders", "test_one");
    let manifest = manifest_for(vec![node], vec![("unit_test.shop.test_one", ut)]);
    with_payload(
        &manifest,
        &["unit_test.shop.test_one"],
        &["model.shop.stg_orders"],
        vec![],
        |payload| assert!(payload.models[0].path.is_none()),
    );
}

#[test]
fn model_payload_emits_column_lineage_context_for_documented_and_tested_columns() {
    let node = model_node("model.shop.customers", Some("select 1"));
    let ut = simple_unit_test("customers", "test_one");
    let manifest = manifest_for(vec![node], vec![("unit_test.shop.test_one", ut)]);
    let context = map(vec![(
        "customer_id",
        ColumnContext {
            data_type: Some("integer".to_owned()),
            description: Some("PK of the customer".to_owned()),
            documented: true,
            tests: vec![ColumnContextTest { kind: "not_null".to_owned() }],
        },
    )]);
    let analysis = ModelAnalysis { column_context: context, ..ModelAnalysis::default() };
    with_payload(
        &manifest,
        &["unit_test.shop.test_one"],
        &["model.shop.customers"],
        vec![("model.shop.customers", analysis)],
        |payload| {
            let cl = payload.models[0]
                .column_lineage
                .as_ref()
                .expect("documented+tested model carries column_lineage");
            let col = cl.context.get("customer_id").expect("column present");
            assert!(col.documented);
            assert_eq!(col.data_type.as_deref(), Some("integer"));
            assert_eq!(col.description.as_deref(), Some("PK of the customer"));
            assert_eq!(col.tests.len(), 1);
            assert_eq!(col.tests[0].kind, "not_null");
            assert!(cl.edges.is_empty());
        },
    );
}

#[test]
fn model_payload_omits_column_lineage_when_no_documented_or_tested_columns() {
    let node = model_node("model.shop.stg_orders", Some("select 1"));
    let ut = simple_unit_test("stg_orders", "test_one");
    let manifest = manifest_for(vec![node], vec![("unit_test.shop.test_one", ut)]);
    with_payload(
        &manifest,
        &["unit_test.shop.test_one"],
        &["model.shop.stg_orders"],
        vec![],
        |payload| assert!(payload.models[0].column_lineage.is_none()),
    );
}

#[test]
fn build_payload_carries_raw_sql_when_node_has_raw_code() {
    let raw = "{# header #}\nselect * from {{ ref('upstream') }}";
    let compiled = "select * from raw_upstream";
    let node = model_node_with_raw("model.shop.stg_x", Some(compiled), Some(raw));
    let manifest = manifest_for(vec![node], vec![]);
    with_payload(&manifest, &[], &["model.shop.stg_x"], vec![], |payload| {
        assert_eq!(payload.models.len(), 1);
        assert_eq!(payload.models[0].raw_sql.as_deref(), Some(raw));
    });
}

#[test]
fn build_payload_raw_sql_is_none_when_node_has_no_raw_code() {
    let manifest = manifest_for(vec![model_node("model.shop.stg_y", Some("select 1"))], vec![]);
    with_payload(&manifest, &[], &["model.shop.stg_y"], vec![], |payload| {
        assert_eq!(payload.models.len(), 1);
        assert!(payload.models[0].raw_sql.is_none());
    });
}

#[test]
fn build_payload_raw_sql_is_none_when_raw_code_is_empty_string() {
    let node = model_node_with_raw("model.shop.stg_z", Some("select 1"), Some(""));
    let manifest = manifest_for(vec![node], vec![]);
    with_payload(&manifest, &[], &["model.shop.stg_z"], vec![], |payload| {
        assert_eq!(payload.models.len(), 1);
        assert!(payload.models[0].raw_sql.is_none());
    });
}

fn one_line_diff(text: &str) -> BlockDiff {
    BlockDiff {
        lines: vec![DiffLine {
            kind: DiffLineKind::Added,
            text: text.to_owned(),
            emphasis: None,
        }],
    }
}

#[test]
fn build_payload_carries_sql_diff_keyed_by_full_model_id() {
    let manifest = manifest_for(vec![model_node("model.shop.dim_x", Some("select 1"))], vec![]);
    let sql_diffs = map(vec![("model.shop.dim_x", one_line_diff("select 1"))]);
    let (yaml, no_diffs, outcomes, data) = (StrMap::new(), StrMap::new(), StrMap::new(), StrMap::new());
    let payload = build_payload(
        &manifest,
        &StrSet::new(),
        &set(&["model.shop.dim_x"]),
        &yaml,
        &no_diffs,
        &sql_diffs,
        &outcomes,
        &data,
        "baseline.json",
        StrMap::new(),
    );
    assert_eq!(payload.models.len(), 1);
    let sd = payload.models[0]
        .sql_diff
        .as_ref()
        .expect("sql_diff present for the keyed model");
    assert_eq!(sd.lines.len(), 1);
    assert_eq!(sd.lines[0].kind, DiffLineKind::Added);
}

#[test]
fn build_payload_sql_diff_is_none_when_model_not_in_diff_map() {
    let manifest = manifest_for(vec![model_node("model.shop.dim_y", Some("select 1"))], vec![]);
    with_payload(&manifest, &[], &["model.shop.dim_y"], vec![], |payload| {
        assert_eq!(payload.models.len(), 1);
        assert!(payload.models[0].sql_diff.is_none());
    });
}

fn with_model_yaml(outcome: ModelYamlOutcome, check: impl Fn(&ReportPayload<'_>)) {
    let manifest = manifest_for(vec![model_node("model.shop.dim_x", Some("select 1"))], vec![]);
    let model_yaml = map(vec![("model.shop.dim_x", outcome)]);
    let (yaml, no_diffs, data) = (StrMap::new(), StrMap::new(), StrMap::new());
    let payload = build_payload(
        &manifest,
        &StrSet::new(),
        &set(&["model.shop.dim_x"]),
        &yaml,
        &no_diffs,
        &no_diffs,
        &model_yaml,
        &data,
        "baseline.json",
        StrMap::new(),
    );
    check(&payload);
}

#[test]
fn build_payload_carries_model_yaml_found_keyed_by_full_model_id() {
    let raw_block = "  - name: dim_x\n    description: a model";
    let outcome = ModelYamlOutcome::Found {
        path: "models/schema.yml".to_owned(),
        block: UnitTestYamlBlock { raw: raw_block.to_owned() },
        diff: None,
    };
    with_model_yaml(outcome, |payload| {
        let my = payload.models[0]
            .model_yaml
            .as_ref()
            .expect("model_yaml present for the keyed model");
        assert_eq!(my.path.as_deref(), Some("models/schema.yml"));
        assert_eq!(my.raw.as_deref(), Some(raw_block));
        assert!(my.diff.is_none());
        assert!(my.missing.is_none());
    });
}

#[test]
fn build_payload_model_yaml_carries_the_attached_diff() {
    let outcome = ModelYamlOutcome::Found {
        path: "models/schema.yml".to_owned(),
        block: UnitTestYamlBlock { raw: "  - name: dim_x".to_owned() },
        diff: Some(one_line_diff("    description: new")),
    };
    with_model_yaml(outcome, |payload| {
        let my = payload.models[0].model_yaml.as_ref().expect("model_yaml");
        let diff = my.diff.as_ref().expect("attached diff rides the payload");
        assert_eq!(diff.lines[0].kind, DiffLineKind::Added);
    });
}

#[test]
fn build_payload_model_yaml_is_omitted_without_a_gather_entry() {
    let manifest = manifest_for(vec![model_node("model.shop.dim_y", Some("select 1"))], vec![]);
    with_payload(&manifest, &[], &["model.shop.dim_y"], vec![], |payload| {
        assert!(payload.models[0].model_yaml.is_none());
    });
}

#[test]
fn build_payload_emits_empty_tests_for_modified_model_with_no_unit_tests() {
    let manifest = manifest_for(vec![model_node("model.shop.no_test", Some("select 1"))], vec![]);
    with_payload(&manifest, &[], &["model.shop.no_test"], vec![], |payload| {
        assert_eq!(payload.models.len(), 1);
        assert!(payload.models[0].tests.is_empty());
    });
}

#[test]
fn build_payload_skips_a_model_missing_from_manifest_nodes() {
    let manifest = manifest_for(vec![], vec![]);
    with_payload(&manifest, &[], &["model.shop.ghost"], vec![], |payload| {
        assert!(payload.models.is_empty());
    });
}

#[test]
fn build_payload_widens_to_all_tests_on_in_scope_model_tagging_changed() {
    let node = model_node("model.shop.dim_x", Some("select 1"));
    let manifest = manifest_for(
        vec![node],
        vec![
            ("unit_test.shop.test_updated", simple_unit_test("dim_x", "test_updated")),
            ("unit_test.shop.test_context", simple_unit_test("dim_x", "test_context")),
        ],
    );
    with_payload(
        &manifest,
        &["unit_test.shop.test_updated"],
        &["model.shop.dim_x"],
        vec![],
        |payload| {
            assert_eq!(payload.models.len(), 1);
            let tests = &payload.models[0].tests;
            assert_eq!(
                tests.len(),
                2,
                "both the updated test and its context sibling are carried",
            );
            let updated_p = tests
                .iter()
                .find(|t| t.name == "test_updated")
                .expect("updated test present");
            let context_p = tests
                .iter()
                .find(|t| t.name == "test_context")
                .expect("context sibling present");
            assert!(updated_p.changed, "the updated test is tagged changed");
            assert!(
                !context_p.changed,
                "the context sibling is tagged not-changed"
            );
        },
    );
}

#[test]
fn build_payload_skips_an_in_scope_test_whose_target_model_is_missing() {
    let ut = unit_test("test_ghost", "ghost_model", vec![]);
    let manifest = manifest_for(vec![], vec![("unit_test.shop.test_ghost", ut)]);
    with_payload(&manifest, &["unit_test.shop.test_ghost"], &[], vec![], |payload| {
        assert!(payload.models.is_empty());
    });
}

// ---------------------------------------------------------------------
// Graphs and code maps
// ---------------------------------------------------------------------

#[test]
fn build_payload_terminal_node_carries_model_name_as_label_not_id() {
    let compiled = "with src as (select * from raw_x) select * from src";
    let manifest = manifest_for(vec![model_node("model.shop.final_one", Some(compiled))], vec![]);
    let graph = CteGraph::new(
        vec![
            cte(compiled, "src", true, &["raw_x"], "select * from raw_x"),
            cte(compiled, TERMINAL_NODE_NAME, true, &[], "select * from src"),
        ],
        vec![edge(0, 1)],
    );
    with_payload(
        &manifest,
        &[],
        &["model.shop.final_one"],
        vec![("model.shop.final_one", analysed(graph))],
        |payload| {
            let model = &payload.models[0];
            let terminal = model
                .dag
                .nodes
                .iter()
                .find(|n| n.role == NodeRole::Final)
                .expect("terminal node present");
            assert_eq!(
                terminal.id, TERMINAL_NODE_NAME,
                "terminal id is the stable engine name, not the model name",
            );
            assert_eq!(
                terminal.label.as_deref(),
                Some("final_one.sql"),
                "the terminal's DISPLAY label is the model's `.sql` file name",
            );
        },
    );
}

#[test]
fn build_payload_compiled_sql_keyed_by_node_id() {
    let compiled = "with stg_x_src as (select * from raw_x) select * from stg_x_src";
    let manifest = manifest_for(vec![model_node("model.shop.x", Some(compiled))], vec![]);
    let graph = CteGraph::new(
        vec![
            cte(compiled, "stg_x_src", true, &["raw_x"], "select * from raw_x"),
            cte(compiled, TERMINAL_NODE_NAME, true, &[], "select * from stg_x_src"),
        ],
        vec![edge(0, 1)],
    );
    with_payload(
        &manifest,
        &[],
        &["model.shop.x"],
        vec![("model.shop.x", analysed(graph))],
        |payload| {
            let model = &payload.models[0];
            assert!(
                model.compiled_sql.contains_key("stg_x_src"),
                "import node compiled SQL keyed by CTE name: {:?}",
                keys(&model.compiled_sql),
            );
            assert!(
                model.compiled_sql.contains_key(TERMINAL_NODE_NAME),
                "terminal node compiled SQL keyed by the stable terminal id (cute-dbt#155)",
            );
        },
    );
}

fn two_cte_graph(compiled: &str) -> CteGraph {
    CteGraph::new(
        vec![
            cte(compiled, "a", false, &[], "select 1"),
            cte(compiled, "b", true, &[], "select * from a"),
            cte(compiled, TERMINAL_NODE_NAME, true, &[], "select * from b"),
        ],
        vec![edge(0, 1), edge(1, 2)],
    )
}

#[test]
fn compiled_sql_byte_equals_code_map_slice_for_every_node() {
    let compiled = "with a as (select 1), b as (select * from a) select * from b";
    let manifest = manifest_for(vec![model_node("model.shop.x", Some(compiled))], vec![]);
    with_payload(
        &manifest,
        &[],
        &["model.shop.x"],
        vec![("model.shop.x", analysed(two_cte_graph(compiled)))],
        |payload| {
            let model = &payload.models[0];
            let code_map = model
                .code_map
                .as_ref()
                .expect("compiled model has a code map");
            assert_eq!(code_map.compiled, compiled);
            assert_eq!(
                keys(&code_map.node_spans),
                keys(&model.compiled_sql),
                "node_spans.keys() == compiled_sql.keys()"
            );
            for id in keys(&code_map.node_spans) {
                let span = code_map.node_spans.get(id).unwrap();
                assert_eq!(
                    &code_map.compiled[span.byte_range()],
                    model.compiled_sql.get(id).unwrap(),
                    "compiled_sql[{id}] byte-equals the faithful slice"
                );
            }
            let terminal = model.compiled_sql.get(TERMINAL_NODE_NAME).unwrap();
            assert!(
                terminal.starts_with("select"),
                "terminal slice is post-trim (no leading glue): {terminal:?}"
            );
        },
    );
}

#[test]
fn every_dag_node_has_a_code_map_entry() {
    let compiled = "with a as (select 1), b as (select * from a) select * from b";
    let manifest = manifest_for(vec![model_node("model.shop.x", Some(compiled))], vec![]);
    with_payload(
        &manifest,
        &[],
        &["model.shop.x"],
        vec![("model.shop.x", analysed(two_cte_graph(compiled)))],
        |payload| {
            let model = &payload.models[0];
            let code_map = model
                .code_map
                .as_ref()
                .expect("compiled model has a code map");
            assert_eq!(model.dag.nodes.len(), 3);
            for n in &model.dag.nodes {
                assert!(
                    code_map.node_spans.contains_key(&n.id),
                    "dag node {:?} has a CteBody entry",
                    n.id
                );
            }
        },
    );
}

#[test]
fn no_compiled_code_omits_code_map() {
    let manifest = manifest_for(vec![model_node("model.shop.uncompiled", None)], vec![]);
    with_payload(&manifest, &[], &["model.shop.uncompiled"], vec![], |payload| {
        let model = &payload.models[0];
        assert!(model.code_map.is_none(), "no compiled code ⇒ no code_map");
        assert_eq!(model.compiled_sql.len(), 0);
    });
}

#[test]
fn self_named_import_cte_does_not_collapse_into_the_terminal() {
    let compiled = "with orders as (select * from raw_orders), \
                          final as (select * from orders) \
                     select * from final";
    let manifest = manifest_for(vec![model_node("model.shop.orders", Some(compiled))], vec![]);
    let graph = CteGraph::new(
        vec![
            cte(compiled, "orders", true, &["raw_orders"], "select * from raw_orders"),
            cte(compiled, "final", true, &[], "select * from orders"),
            cte(compiled, TERMINAL_NODE_NAME, true, &[], "select * from final"),
        ],
        vec![edge(0, 1), edge(1, 2)],
    );
    with_payload(
        &manifest,
        &[],
        &["model.shop.orders"],
        vec![("model.shop.orders", analysed(graph))],
        |payload| {
            let model = &payload.models[0];
            let ids: Vec<&str> = model.dag.nodes.iter().map(|n| n.id.as_str()).collect();
            let unique: std::collections::BTreeSet<&str> = ids.iter().copied().collect();
            assert_eq!(
                ids.len(),
                unique.len(),
                "node ids must be unique, got {ids:?}"
            );
            let import = model
                .dag
                .nodes
                .iter()
                .find(|n| n.id == "orders")
                .expect("import CTE node keyed by its own name");
            assert_eq!(
                import.role,
                NodeRole::Import,
                "import keeps the Import role"
            );
            let terminal = model
                .dag
                .nodes
                .iter()
                .find(|n| n.role == NodeRole::Final)
                .expect("terminal node present");
            assert_ne!(
                terminal.id, "orders",
                "terminal id must NOT collide with the import CTE",
            );
            assert_eq!(
                terminal.label.as_deref(),
                Some("orders.sql"),
                "terminal DISPLAYS the model's `.sql` file name — visually distinct \
                 from the same-named import CTE",
            );
            assert!(
                model.dag.edges.iter().all(|e| e.from != e.to),
                "no edge may point a node at itself",
            );
            assert!(
                !model
                    .dag
                    .edges
                    .iter()
                    .any(|e| e.from == "final" && e.to == "orders"),
                "the spurious final->orders back-edge must be gone",
            );
            let import_sql = model.compiled_sql.get("orders").unwrap();
            assert!(
                import_sql.contains("raw_orders"),
                "import node keeps its own SQL: {import_sql}",
            );
            assert!(
                !import_sql.contains("from final"),
                "import node SQL must not be overwritten by the terminal's: {import_sql}",
            );
        },
    );
}

#[test]
fn build_payload_no_with_model_is_one_terminal_cte_body_entry() {
    let compiled = "select 1";
    let manifest = manifest_for(vec![model_node("model.shop.flat", Some(compiled))], vec![]);
    with_payload(
        &manifest,
        &[],
        &["model.shop.flat"],
        vec![("model.shop.flat", analysed(CteGraph::default()))],
        |payload| {
            let model = &payload.models[0];
            assert_eq!(
                model.compiled_sql.get(TERMINAL_NODE_NAME).unwrap(),
                compiled,
                "no-WITH body keyed by the stable terminal id, not the model name"
            );
            assert!(
                !model.compiled_sql.contains_key("flat"),
                "no longer keyed by the bare model name (cute-dbt#445 key fix)"
            );
            let code_map = model
                .code_map
                .as_ref()
                .expect("compiled model has a code map");
            assert_eq!(code_map.compiled, compiled);
            let node_keys = keys(&code_map.node_spans);
            let slice_keys = keys(&model.compiled_sql);
            assert_eq!(node_keys, slice_keys);
            assert_eq!(node_keys, vec![TERMINAL_NODE_NAME]);
        },
    );
}

#[test]
fn build_payload_handles_unparseable_compiled_code_gracefully() {
    let manifest = manifest_for(vec![model_node("model.shop.broken", Some("not valid sql {"))], vec![]);
    with_payload(&manifest, &[], &["model.shop.broken"], vec![], |payload| {
        assert_eq!(payload.models.len(), 1);
        let model = &payload.models[0];
        assert!(model.dag.nodes.is_empty());
        assert_eq!(
            model.compiled_sql.get(TERMINAL_NODE_NAME).unwrap(),
            "not valid sql {",
        );
        assert_eq!(model.code_map.as_ref().unwrap().compiled, "not valid sql {");
    });
}

#[test]
fn raw_code_adds_zones_and_raw_spans() {
    let raw = "with stg as (select 1 as id) select id from stg{% if is_incremental() %} where id > 0{% endif %}";
    let compiled = "with stg as (select 1 as id) select id from stg";
    let graph = CteGraph::new(
        vec![
            cte(compiled, "stg", false, &[], "select 1 as id"),
            cte(compiled, TERMINAL_NODE_NAME, true, &[], "select id from stg"),
        ],
        vec![edge(0, 1)],
    );
    let analysis = ModelAnalysis {
        graph,
        raw_spans: map(vec![("stg", byte_span(raw, 5, 28).unwrap())]),
        ..ModelAnalysis::default()
    };
    let manifest = manifest_for(vec![model_node_with_raw("model.shop.x", Some(compiled), Some(raw))], vec![]);
    with_payload(&manifest, &[], &["model.shop.x"], vec![("model.shop.x", analysis)], |payload| {
        let code_map = payload.models[0].code_map.as_ref().unwrap();
        assert_eq!(code_map.raw_zones.len(), 1);
        assert_eq!(code_map.raw_zones[0].presence, "compiled_out");
        let stg = code_map.raw_node_spans.get("stg").unwrap();
        assert_eq!(&raw[stg.byte_range()], "stg as (select 1 as id)");
        assert_eq!(code_map.raw_node_spans.len(), 1);
    });
}

#[test]
fn build_payload_propagates_is_recursive_flag() {
    let compiled = "with recursive r(n) as (select 1 union all select n+1 from r) \
                    select * from r";
    let manifest = manifest_for(vec![model_node("model.shop.rec", Some(compiled))], vec![]);
    let mut graph = CteGraph::new(
        vec![
            cte(compiled, "r", false, &[], "select 1 union all select n+1 from r"),
            cte(compiled, TERMINAL_NODE_NAME, true, &[], "select * from r"),
        ],
        vec![edge(0, 1)],
    );
    graph.is_recursive = true;
    with_payload(
        &manifest,
        &[],
        &["model.shop.rec"],
        vec![("model.shop.rec", analysed(graph))],
        |payload| assert!(payload.models[0].is_recursive),
    );
}

#[test]
fn build_payload_marks_incremental_model_and_not_table() {
    let inc = incremental_model_node("model.shop.order_events", Some("select 1"));
    let manifest = manifest_for(vec![inc], vec![]);
    with_payload(&manifest, &[], &["model.shop.order_events"], vec![], |payload| {
        assert!(
            payload.models[0].is_incremental,
            "config.materialized==incremental ⇒ ModelPayload.is_incremental"
        );
    });

    let tbl = model_node("model.shop.orders", Some("select 1"));
    let manifest = manifest_for(vec![tbl], vec![]);
    with_payload(&manifest, &[], &["model.shop.orders"], vec![], |payload| {
        assert!(
            !payload.models[0].is_incremental,
            "table model ⇒ not incremental"
        );
    });
}

#[test]
fn model_payload_threads_the_model_description() {
    let mut node = model_node("model.shop.m", Some("select 1"));
    node.description = Some("One row per order.".to_owned());
    let manifest = manifest_for(vec![node], vec![]);
    with_payload(&manifest, &[], &["model.shop.m"], vec![], |payload| {
        assert_eq!(
            payload.models[0].description.as_deref(),
            Some("One row per order.")
        );
    });
}

#[test]
fn model_payload_omits_the_description_key_when_none() {
    let manifest = manifest_for(vec![model_node("model.shop.m", Some("select 1"))], vec![]);
    with_payload(&manifest, &[], &["model.shop.m"], vec![], |payload| {
        assert!(payload.models[0].description.is_none());
    });
}

// ---------------------------------------------------------------------
// Unit tests and their inputs
// ---------------------------------------------------------------------

#[test]
fn build_payload_test_carries_metadata_fields() {
    let node = model_node("model.shop.m", Some("select 1"));
    let ut = simple_unit_test("m", "test_one");
    let manifest = manifest_for(vec![node], vec![("unit_test.shop.test_one", ut)]);
    with_payload(
        &manifest,
        &["unit_test.shop.test_one"],
        &["model.shop.m"],
        vec![],
        |payload| {
            let test = &payload.models[0].tests[0];
            assert_eq!(test.description.as_deref(), Some("a description"));
            assert_eq!(test.tags.unwrap(), &vec!["finance".to_owned()]);
            assert!(test.meta.is_some());
            assert_eq!(test.defined_in.as_deref(), Some("models/x.yml"));
            assert_eq!(test.id, "unit_test.shop.test_one");
            assert_eq!(test.target_model, "m");
        },
    );
}

/// The nodes that the givens of a test on the model `x` bind to.
fn bound_nodes(
    compiled: &str,
    graph: CteGraph,
    givens: Vec<UnitTestGiven>,
    sources: Vec<SourceNode>,
) -> Vec<Option<String>> {
    let manifest = manifest_with_sources(
        vec![model_node("model.shop.x", Some(compiled))],
        vec![("unit_test.shop.test_one", unit_test("test_one", "x", givens))],
        sources,
    );
    let bound = std::cell::RefCell::new(Vec::new());
    with_payload(
        &manifest,
        &["unit_test.shop.test_one"],
        &["model.shop.x"],
        vec![("model.shop.x", analysed(graph))],
        |payload| {
            for g in &payload.models[0].tests[0].given {
                bound.borrow_mut().push(g.bound_to_node.clone());
            }
        },
    );
    bound.into_inner()
}

/// A graph of one CTE and the final select that reads it.
fn single_cte_graph(compiled: &str, name: &str, simple: bool, tables: &[&str], body: &str, last: &str) -> CteGraph {
    CteGraph::new(
        vec![
            cte(compiled, name, simple, tables, body),
            cte(compiled, TERMINAL_NODE_NAME, true, &[], last),
        ],
        vec![edge(0, 1)],
    )
}

#[test]
fn build_payload_given_binds_import_cte_when_ref_matches() {
    let compiled = "with stg_orders_src as (select * from raw_orders) \
                    select * from stg_orders_src";
    let graph = single_cte_graph(
        compiled,
        "stg_orders_src",
        true,
        &["raw_orders"],
        "select * from raw_orders",
        "select * from stg_orders_src",
    );
    let bound = bound_nodes(compiled, graph, vec![given("ref('stg_orders_src')")], vec![]);
    assert_eq!(
        bound[0].as_deref(),
        Some("stg_orders_src"),
        "ref('stg_orders_src') binds to its matching import-CTE node",
    );
}

#[test]
fn build_payload_given_binds_import_cte_via_body_table_reference() {
    let compiled = "with source as (\
                      select * from \"jaffle_shop\".\"main\".\"raw_customers\"\
                    ) select customer_id, first_name from source";
    let graph = single_cte_graph(
        compiled,
        "source",
        true,
        &["raw_customers"],
        "select * from \"jaffle_shop\".\"main\".\"raw_customers\"",
        "select customer_id, first_name from source",
    );
    let bound = bound_nodes(compiled, graph, vec![given("ref('raw_customers')")], vec![]);
    assert_eq!(
        bound[0].as_deref(),
        Some("source"),
        "ref('raw_customers') binds to the import-CTE `source` via its body table reference",
    );
}

#[test]
fn build_payload_messy_multi_ref_cte_binds_every_given_to_one_node() {
    let compiled = "with raw_union as (\
                      select id, kind from \"db\".\"schema\".\"raw_orders\" \
                      union all \
                      select id, kind from \"db\".\"schema\".\"raw_returns\"\
                    ) select * from raw_union";
    let graph = single_cte_graph(
        compiled,
        "raw_union",
        false,
        &["raw_orders", "raw_returns"],
        "select id, kind from \"db\".\"schema\".\"raw_orders\" \
         union all \
         select id, kind from \"db\".\"schema\".\"raw_returns\"",
        "select * from raw_union",
    );
    let givens = vec![
        UnitTestGiven::new("ref('raw_orders')", json(r#"[{"id": 1}]"#)),
        UnitTestGiven::new("ref('raw_returns')", json(r#"[{"id": 9}]"#)),
    ];
    let bound = bound_nodes(compiled, graph, givens, vec![]);
    assert_eq!(
        bound[0].as_deref(),
        Some("raw_union"),
        "ref('raw_orders') binds to the multi-ref CTE via body-leaf match",
    );
    assert_eq!(
        bound[1].as_deref(),
        Some("raw_union"),
        "ref('raw_returns') binds to the SAME multi-ref CTE",
    );
}

#[test]
fn build_payload_messy_join_cte_binds_both_givens() {
    let compiled = "with joined_src as (\
                      select o.id, c.name \
                      from \"db\".\"schema\".\"raw_orders\" o \
                      inner join \"db\".\"schema\".\"raw_customers\" c on c.id = o.cid\
                    ) select * from joined_src";
    let graph = single_cte_graph(
        compiled,
        "joined_src",
        false,
        &["raw_orders", "raw_customers"],
        "select o.id, c.name",
        "select * from joined_src",
    );
    let bound = bound_nodes(
        compiled,
        graph,
        vec![given("ref('raw_orders')"), given("ref('raw_customers')")],
        vec![],
    );
    assert_eq!(bound[0].as_deref(), Some("joined_src"));
    assert_eq!(bound[1].as_deref(), Some("joined_src"));
}

#[test]
fn build_payload_pass_1_requires_both_name_match_and_import_role() {
    let compiled = "with not_target as (select * from \"db\".\"schema\".\"unrelated\"), \
         target as (select * from not_target) \
         select * from target";
    let graph = CteGraph::new(
        vec![
            cte(compiled, "not_target", true, &["unrelated"], "select * from \"db\".\"schema\".\"unrelated\""),
            cte(compiled, "target", true, &["not_target"], "select * from not_target"),
            cte(compiled, TERMINAL_NODE_NAME, true, &["target"], "select * from target"),
        ],
        vec![edge(0, 1), edge(1, 2)],
    );
    let bound = bound_nodes(compiled, graph, vec![given("ref('target')")], vec![]);
    assert!(
        bound[0].is_none(),
        "matching name on a non-import node must NOT bind (role gate honored); \
         got bound_to_node={:?}",
        bound[0],
    );
}

#[test]
fn build_payload_given_does_not_bind_when_no_matching_import_cte() {
    let bound = bound_nodes("select 1", CteGraph::default(), vec![given("ref('nonexistent')")], vec![]);
    assert!(bound[0].is_none());
}

fn patients(name: &str, tables: &[&str]) -> (String, CteGraph) {
    let compiled = format!(
        "with {name} as (select * from \"memory\".\"main\".\"{}\") select id, name from {name}",
        tables[0]
    );
    let body = format!("select * from \"memory\".\"main\".\"{}\"", tables[0]);
    let last = format!("select id, name from {name}");
    let graph = single_cte_graph(&compiled, name, true, tables, &body, &last);
    (compiled, graph)
}

#[test]
fn build_payload_source_given_binds_via_resolved_relation_body_match() {
    let (compiled, graph) = patients("source", &["patients"]);
    let bound = bound_nodes(
        &compiled,
        graph,
        vec![given("source('synthea_raw', 'patients')")],
        vec![source(
            "source.shop.synthea_raw.patients",
            "synthea_raw",
            "patients",
            Some("patients"),
            Some("\"memory\".\"main\".\"patients\""),
        )],
    );
    assert_eq!(
        bound[0].as_deref(),
        Some("source"),
        "source('synthea_raw','patients') binds to the import CTE via the resolved relation",
    );
}

#[test]
fn build_payload_source_given_binds_through_an_identifier_override() {
    let (compiled, graph) = patients("src", &["patients_v2"]);
    let bound = bound_nodes(
        &compiled,
        graph,
        vec![given("source('synthea_raw', 'patients')")],
        vec![source(
            "source.shop.synthea_raw.patients",
            "synthea_raw",
            "patients",
            Some("patients_v2"),
            Some("\"memory\".\"main\".\"patients_v2\""),
        )],
    );
    assert_eq!(bound[0].as_deref(), Some("src"));
}

#[test]
fn build_payload_source_given_binds_with_a_fusion_minimal_source_entry() {
    let (compiled, graph) = patients("source", &["patients"]);
    let bound = bound_nodes(
        &compiled,
        graph,
        vec![given("source('synthea_raw', 'patients')")],
        vec![source("source.shop.synthea_raw.patients", "synthea_raw", "patients", None, None)],
    );
    assert_eq!(bound[0].as_deref(), Some("source"));
}

#[test]
fn build_payload_source_given_does_not_bind_when_pair_is_unresolvable() {
    let (compiled, graph) = patients("source", &["patients"]);
    let bound = bound_nodes(
        &compiled,
        graph,
        vec![given("source('other_block', 'patients')")],
        vec![source(
            "source.shop.synthea_raw.patients",
            "synthea_raw",
            "patients",
            Some("patients"),
            Some("\"memory\".\"main\".\"patients\""),
        )],
    );
    assert!(bound[0].is_none());
}

#[test]
fn build_payload_source_given_does_not_bind_without_a_sources_map() {
    let (compiled, graph) = patients("source", &["patients"]);
    let bound = bound_nodes(&compiled, graph, vec![given("source('synthea_raw', 'patients')")], vec![]);
    assert!(bound[0].is_none());
}

#[test]
fn build_payload_binds_a_ref_given_and_a_source_given_in_one_test() {
    let compiled = "with orders as (\
                      select * from \"memory\".\"main\".\"raw_orders\"\
                    ), patients as (\
                      select * from \"memory\".\"raw\".\"patients\"\
                    ) select o.id, p.name from orders o join patients p on p.id = o.pid";
    let graph = CteGraph::new(
        vec![
            cte(compiled, "orders", true, &["raw_orders"], "select * from \"memory\".\"main\".\"raw_orders\""),
            cte(compiled, "patients", true, &["patients"], "select * from \"memory\".\"raw\".\"patients\""),
            cte(compiled, TERMINAL_NODE_NAME, false, &[], "select o.id, p.name from orders o join patients p on p.id = o.pid"),
        ],
        vec![edge(0, 2), CteEdge { from: 1, to: 2, edge_type: EdgeType::Inner }],
    );
    let givens = vec![
        UnitTestGiven::new("ref('raw_orders')", json(r#"[{"id": 1}]"#)),
        UnitTestGiven::new("source('synthea_raw', 'patients')", json(r#"[{"id": 1, "name": "x"}]"#)),
    ];
    let bound = bound_nodes(
        compiled,
        graph,
        givens,
        vec![source(
            "source.shop.synthea_raw.patients",
            "synthea_raw",
            "patients",
            Some("patients"),
            Some("\"memory\".\"raw\".\"patients\""),
        )],
    );
    assert_eq!(
        bound[0].as_deref(),
        Some("orders"),
        "the ref() given binds to the ref-based import CTE",
    );
    assert_eq!(
        bound[1].as_deref(),
        Some("patients"),
        "the source() given binds to the source-based import CTE",
    );
}

#[test]
fn build_payload_threads_incremental_mode_and_this_given() {
    let node = incremental_model_node("model.shop.order_events", Some("select 1"));
    let mut ut = unit_test(
        "test_order_events_incremental",
        "order_events",
        vec![given("this"), given("ref('stg_orders')")],
    );
    ut.is_incremental_mode = Some(true);
    let manifest = manifest_for(vec![node], vec![("unit_test.shop.t", ut)]);
    with_payload(
        &manifest,
        &["unit_test.shop.t"],
        &["model.shop.order_events"],
        vec![],
        |payload| {
            let test = &payload.models[0].tests[0];
            assert_eq!(
                test.is_incremental_mode,
                Some(true),
                "overrides mode threaded onto TestPayload"
            );
            assert!(test.given[0].is_this, "input 'this' ⇒ is_this");
            assert!(!test.given[1].is_this, "ref(...) given ⇒ not is_this");
        },
    );
}

#[test]
fn build_test_payload_omits_data_diff_when_absent() {
    let ut = simple_unit_test("m", "t");
    with_test(&manifest_for(vec![], vec![]), &ut, None, |payload| {
        assert!(payload.data_diff.is_none());
    });
}

#[test]
fn build_test_payload_carries_data_diff_when_present() {
    let ut = simple_unit_test("m", "t");
    let data_diff = UnitTestDataDiff {
        given: vec![],
        expect: Some(FixtureTableDiff { columns: vec![], rows: vec![] }),
    };
    let extras = TestExtras { data_diff: Some(&data_diff), ..no_extras() };
    let payload = build_test_payload(
        "unit_test.shop.t",
        &ut,
        &CteGraph::default(),
        &StrSet::new(),
        extras,
        &manifest_for(vec![], vec![]),
        &StrMap::new(),
    );
    assert_eq!(payload.data_diff, Some(&data_diff));
}

#[test]
fn build_test_payload_attaches_column_meta_per_table_owner() {
    let mut target = model_node("model.shop.dim_x", Some("select 1"));
    target.column_descriptions = map(vec![
        ("id", "Primary key".to_owned()),
        ("not_in_fixture", "never rendered".to_owned()),
    ]);
    let mut src = model_node("model.shop.stg_src", Some("select 1"));
    src.column_descriptions = map(vec![("src_id", "Source key".to_owned())]);
    let manifest = manifest_for(
        vec![
            target,
            src,
            test_node(
                "test.shop.unique_dim_x_id",
                "model.shop.dim_x",
                Some("id"),
                metadata("unique", None, "null"),
            ),
        ],
        vec![],
    );
    let ut = UnitTest::new(
        "t",
        "dim_x",
        vec![given_with_table(
            "ref('stg_src')",
            r#"[{ "src_id": 1, "unknown_col": 2 }]"#,
            &["src_id", "unknown_col"],
        )],
        expect(r#"[{ "id": 1, "status": "ok" }]"#, &["id", "status"]),
    );
    with_test(&manifest, &ut, Some("model.shop.dim_x"), |payload| {
        let expect_meta = &payload.expected.column_meta;
        assert_eq!(
            expect_meta.get("id").and_then(|m| m.description.as_deref()),
            Some("Primary key")
        );
        assert_eq!(
            expect_meta.get("id").map(|m| m.tests.as_slice()),
            Some(&[bare_test("unique")][..])
        );
        assert!(!expect_meta.contains_key("status"));
        assert!(!expect_meta.contains_key("not_in_fixture"));

        let given_meta = &payload.given[0].column_meta;
        assert_eq!(
            given_meta
                .get("src_id")
                .and_then(|m| m.description.as_deref()),
            Some("Source key")
        );
        assert!(!given_meta.contains_key("unknown_col"));
        assert!(!given_meta.contains_key("id"));
    });
}

#[test]
fn build_test_payload_this_given_uses_target_model_meta() {
    let mut target = model_node("model.shop.dim_x", Some("select 1"));
    target.column_descriptions = map(vec![("id", "Primary key".to_owned())]);
    let manifest = manifest_for(vec![target], vec![]);
    let ut = UnitTest::new(
        "t",
        "dim_x",
        vec![given_with_table("this", r#"[{ "id": 1 }]"#, &["id"])],
        expect(r#"[{ "id": 2 }]"#, &["id"]),
    );
    with_test(&manifest, &ut, Some("model.shop.dim_x"), |payload| {
        assert_eq!(
            payload.given[0]
                .column_meta
                .get("id")
                .and_then(|m| m.description.as_deref()),
            Some("Primary key"),
            "a `this` given is the model's own prior state — target meta applies",
        );
    });
}

#[test]
fn build_test_payload_attaches_seed_column_meta_for_a_seed_ref_given() {
    let mut seed = Node::new("seed.shop.raw_customers", "seed");
    seed.column_descriptions = map(vec![("customer_id", "Seed primary key".to_owned())]);
    let manifest = manifest_for(
        vec![
            model_node("model.shop.dim_x", Some("select 1")),
            seed,
            test_node(
                "test.shop.unique_raw_customers_customer_id",
                "seed.shop.raw_customers",
                Some("customer_id"),
                metadata("unique", None, "null"),
            ),
        ],
        vec![],
    );
    let ut = UnitTest::new(
        "t",
        "dim_x",
        vec![given_with_table(
            "ref('raw_customers')",
            r#"[{ "customer_id": 1, "undocumented": 2 }]"#,
            &["customer_id", "undocumented"],
        )],
        expect(r#"[{ "id": 1 }]"#, &["id"]),
    );
    with_test(&manifest, &ut, None, |payload| {
        let given_meta = &payload.given[0].column_meta;
        assert_eq!(
            given_meta
                .get("customer_id")
                .and_then(|m| m.description.as_deref()),
            Some("Seed primary key"),
            "a seed-ref given resolves the seed's column descriptions",
        );
        assert_eq!(
            given_meta.get("customer_id").map(|m| m.tests.as_slice()),
            Some(&[bare_test("unique")][..]),
            "column-scoped tests attached to the seed ride along",
        );
        assert!(
            !given_meta.contains_key("undocumented"),
            "honest degrade: an undeclared fixture column carries no meta",
        );
    });
}

#[test]
fn build_test_payload_attaches_source_column_meta_for_a_source_given() {
    let mut patients = source("source.shop.raw.patients", "raw", "patients", None, None);
    patients.column_descriptions = map(vec![("Id", "Unique patient identifier".to_owned())]);
    let manifest = manifest_with_sources(
        vec![
            model_node("model.shop.dim_x", Some("select 1")),
            test_node(
                "test.shop.not_null_raw_patients_Id",
                "source.shop.raw.patients",
                Some("Id"),
                metadata("not_null", None, "null"),
            ),
        ],
        vec![],
        vec![patients],
    );
    let ut = UnitTest::new(
        "t",
        "dim_x",
        vec![given_with_table(
            "source('raw', 'patients')",
            r#"[{ "Id": "a-1", "FIRST": "Ada" }]"#,
            &["Id", "FIRST"],
        )],
        expect(r#"[{ "id": 1 }]"#, &["id"]),
    );
    with_test(&manifest, &ut, None, |payload| {
        let given_meta = &payload.given[0].column_meta;
        assert_eq!(
            given_meta.get("Id").and_then(|m| m.description.as_deref()),
            Some("Unique patient identifier"),
            "a source given resolves the source's column descriptions",
        );
        assert_eq!(
            given_meta.get("Id").map(|m| m.tests.as_slice()),
            Some(&[bare_test("not null")][..]),
            "column-scoped tests attached to the source ride along",
        );
        assert!(
            !given_meta.contains_key("FIRST"),
            "honest degrade: an undescribed source column carries no meta",
        );
    });
}

#[test]
fn source_given_with_no_declared_columns_keeps_column_meta_empty() {
    let manifest = manifest_with_sources(
        vec![model_node("model.shop.dim_x", Some("select 1"))],
        vec![],
        vec![source("source.shop.raw.events", "raw", "events", None, None)],
    );
    let ut = UnitTest::new(
        "t",
        "dim_x",
        vec![given_with_table("source('raw', 'events')", r#"[{ "event_id": 1 }]"#, &["event_id"])],
        expect(r#"[{ "id": 1 }]"#, &["id"]),
    );
    with_test(&manifest, &ut, None, |payload| {
        assert!(
            payload.given[0].column_meta.is_empty(),
            "no declared source columns → empty (omitted) column_meta",
        );
    });
}

#[test]
fn external_fixture_given_carries_fixture_name_and_null_rows() {
    let mut external = given_with_table("ref('a')", "null", &["never"]);
    external.format = Some("csv".to_owned());
    external.fixture = Some("stg_a_fixture".to_owned());
    let ut = UnitTest::new("t", "model.shop.m", vec![external], expect(r#"[{"id": 1}]"#, &["id"]));
    with_test(&manifest_for(vec![], vec![]), &ut, None, |payload| {
        assert_eq!(payload.given[0].fixture.as_deref(), Some("stg_a_fixture"));
        assert!(
            payload.given[0].rows.is_null(),
            "external-fixture given has null rows (data not in manifest)",
        );
        assert!(payload.given[0].table.is_none(), "no empty grid for rows that are elsewhere");
        assert!(payload.expected.fixture.is_none());
        assert!(payload.expected.rows.is_array());
        assert!(payload.expected.table.is_some());
    });
}

#[test]
fn a_loaded_fixture_stands_in_for_the_rows() {
    let mut external = UnitTestGiven::new("ref('a')", json("null"));
    external.fixture = Some("stg_a_fixture".to_owned());
    let ut = UnitTest::new("t", "m", vec![given("ref('b')"), external], UnitTestExpect::new(json("[]")));
    let loaded = |text: &str| LoadedFixture {
        text: text.to_owned(),
        format: Some("csv".to_owned()),
        table: Some(table(&["id"])),
    };
    let fixtures = ExternalFixtures {
        given: [(1, loaded("id\n1"))].into(),
        expect: Some(loaded("id\n2")),
    };
    let extras = TestExtras { external: Some(&fixtures), ..no_extras() };
    let payload = build_test_payload(
        "unit_test.shop.t",
        &ut,
        &CteGraph::default(),
        &StrSet::new(),
        extras,
        &manifest_for(vec![], vec![]),
        &StrMap::new(),
    );
    assert_eq!(payload.given[0].rows, json("[]"));
    assert_eq!(payload.given[0].format, None);
    assert_eq!(payload.given[1].rows, json("\"id\\n1\""));
    assert_eq!(payload.given[1].format.as_deref(), Some("csv"));
    assert_eq!(payload.given[1].table, Some(&table(&["id"])));
    assert_eq!(payload.given[1].fixture.as_deref(), Some("stg_a_fixture"));
    assert_eq!(payload.expected.rows, json("\"id\\n2\""));
}

fn grouped_overrides() -> UnitTestOverrides {
    map(vec![
        ("macros", map(vec![("is_incremental", json("true"))])),
        (
            "vars",
            map(vec![
                ("encounter_lookback_days", json("7")),
                ("dq_quarantine_threshold", json("0.05")),
            ]),
        ),
    ])
}

#[test]
fn test_payload_overrides_round_trip_groups_and_native_scalar_types() {
    let node = model_node("model.shop.m", Some("select 1"));
    let mut ut = simple_unit_test("m", "test_one");
    ut.overrides = Some(grouped_overrides());
    let manifest = manifest_for(vec![node], vec![("unit_test.shop.test_one", ut)]);
    with_payload(&manifest, &[], &["model.shop.m"], vec![], |payload| {
        let test = &payload.models[0].tests[0];
        let overrides = test.overrides.expect("overrides carried");
        assert_eq!(overrides, &grouped_overrides());
        assert_eq!(keys(overrides), ["macros", "vars"]);
        let vars = overrides.get("vars").unwrap();
        assert_eq!(keys(vars), ["dq_quarantine_threshold", "encounter_lookback_days"]);
        assert_eq!(vars.get("dq_quarantine_threshold").unwrap(), &json("0.05"));
        assert!(overrides.get("macros").unwrap().get("is_incremental").unwrap().is_boolean());
    });
}

#[test]
fn test_payload_omits_the_overrides_key_when_none() {
    let node = model_node("model.shop.m", Some("select 1"));
    let ut = simple_unit_test("m", "test_one");
    let manifest = manifest_for(vec![node], vec![("unit_test.shop.test_one", ut)]);
    with_payload(&manifest, &[], &["model.shop.m"], vec![], |payload| {
        assert!(payload.models[0].tests[0].overrides.is_none());
    });
}

#[test]
fn what_was_gathered_reaches_its_test() {
    let manifest = manifest_for(
        vec![model_node("model.shop.m", Some("select 1"))],
        vec![
            ("unit_test.shop.a", simple_unit_test("m", "a")),
            ("unit_test.shop.b", simple_unit_test("m", "b")),
        ],
    );
    let yaml = map(vec![("unit_test.shop.b", UnitTestYamlBlock { raw: "- name: b".to_owned() })]);
    let yaml_diffs = map(vec![("unit_test.shop.b", one_line_diff("- name: b"))]);
    let (no_diffs, outcomes, data) = (StrMap::new(), StrMap::new(), StrMap::new());
    let payload = build_payload(
        &manifest,
        &StrSet::new(),
        &set(&["model.shop.m"]),
        &yaml,
        &yaml_diffs,
        &no_diffs,
        &outcomes,
        &data,
        "",
        StrMap::new(),
    );
    let tests = &payload.models[0].tests;
    assert_eq!((tests[0].name.as_str(), tests[1].name.as_str()), ("a", "b"));
    assert!(tests[0].authoring_yaml.is_none() && tests[0].yaml_diff.is_none());
    assert_eq!(tests[1].authoring_yaml.as_deref(), Some("- name: b"));
    assert_eq!(tests[1].yaml_diff, yaml_diffs.get("unit_test.shop.b"));
}

// ---------------------------------------------------------------------
// The lookup of models
// ---------------------------------------------------------------------

#[test]
fn manifest_nodes_entry_carries_the_full_model_context() {
    let mut model = model_node("model.shop.dim_payers", Some("select 1"));
    model.materialized = Some("incremental".to_owned());
    model.columns = map(vec![("id", Some("bigint".to_owned())), ("status", None)]);
    model.column_descriptions = map(vec![("id", "Primary key".to_owned())]);
    model.description = Some("One row per payer.".to_owned());
    model.tags = vec!["marts".to_owned(), "finance".to_owned()];
    let manifest = manifest_for(
        vec![
            model,
            test_node(
                "test.shop.unique_dim_payers_id",
                "model.shop.dim_payers",
                Some("id"),
                metadata("unique", None, "null"),
            ),
            test_node(
                "test.shop.relationships_dim_payers",
                "model.shop.dim_payers",
                None,
                metadata(
                    "relationships",
                    None,
                    r#"{ "to": "ref('stg_payers')", "field": "payer_id" }"#,
                ),
            ),
            test_node(
                "test.shop.unique_combo_dim_payers",
                "model.shop.dim_payers",
                None,
                metadata(
                    "unique_combination_of_columns",
                    Some("dbt_utils"),
                    r#"{ "combination_of_columns": ["id", "status"] }"#,
                ),
            ),
        ],
        vec![],
    );
    with_payload(&manifest, &[], &["model.shop.dim_payers"], vec![], |payload| {
        let entry = payload
            .manifest_nodes
            .get("dim_payers")
            .expect("in-scope model keyed by BARE name");
        assert_eq!(entry.description.as_deref(), Some("One row per payer."));
        assert_eq!(entry.materialized.as_deref(), Some("incremental"));
        assert_eq!(entry.tags, ["marts".to_owned(), "finance".to_owned()]);
        assert_eq!(entry.columns.len(), 2);
        let id = &entry.columns[0];
        assert_eq!(id.name, "id");
        assert_eq!(id.description.as_deref(), Some("Primary key"));
        assert_eq!(id.column_type.as_deref(), Some("bigint"));
        assert_eq!(id.tests, [bare_test("unique")]);
        let status = &entry.columns[1];
        assert_eq!(status.name, "status");
        assert!(status.description.is_none() && status.column_type.is_none());
        assert!(status.tests.is_empty());
        let tests: Vec<(&str, Option<&str>)> = entry
            .model_tests
            .iter()
            .map(|t| (t.name.as_str(), t.detail.as_deref()))
            .collect();
        assert_eq!(
            tests,
            [
                ("dbt_utils.unique_combination_of_columns", None),
                ("relationships", Some("stg_payers.payer_id")),
            ],
            "model-level tests via the §2.2 mapping, sorted by name"
        );
    });
}

#[test]
fn manifest_nodes_include_ref_ed_upstreams_and_exclude_unrelated_models() {
    let described = |id: &str, text: &str| {
        let mut node = model_node(id, Some("select 1"));
        node.description = Some(text.to_owned());
        node
    };
    let ut = unit_test(
        "t",
        "dim_x",
        vec![
            given("ref('stg_src')"),
            given("this"),
            given("source('raw', 'orders')"),
            given("ref('not_a_model')"),
        ],
    );
    let manifest = manifest_for(
        vec![
            model_node("model.shop.dim_x", Some("select 1")),
            described("model.shop.stg_src", "Staged source."),
            described("model.shop.dim_unrelated", "Unrelated."),
        ],
        vec![("unit_test.shop.t", ut)],
    );
    with_payload(&manifest, &[], &["model.shop.dim_x"], vec![], |payload| {
        assert_eq!(
            keys(&payload.manifest_nodes),
            ["stg_src"],
            "the ref()-ed upstream appears; the unrelated model does not \
             (dim_x itself is all-empty context → skipped)"
        );
        assert_eq!(
            payload.manifest_nodes.get("stg_src").unwrap().description.as_deref(),
            Some("Staged source.")
        );
    });
}

#[test]
fn manifest_nodes_key_is_omitted_when_every_entry_is_empty() {
    let node = model_node("model.shop.m", Some("select 1"));
    let ut = simple_unit_test("m", "test_one");
    let manifest = manifest_for(vec![node], vec![("unit_test.shop.test_one", ut)]);
    with_payload(&manifest, &[], &["model.shop.m"], vec![], |payload| {
        assert!(
            payload.manifest_nodes.is_empty(),
            "all-empty entries are skipped"
        );
    });
}

// ---------------------------------------------------------------------
// Findings
// ---------------------------------------------------------------------

fn check(id_str: &'static str, tier: &'static str, instrument: &'static str) -> CheckSpec {
    CheckSpec {
        id_str,
        name: "name",
        group: "group",
        tier,
        instrument,
        conditions: &["a condition"],
        exclusions: &[],
        rationale: "a rationale",
    }
}

fn grain() -> CheckSpec {
    check("grain.unique-key-unbacked", "total", "data-test")
}

fn union() -> CheckSpec {
    check("union.arm-coverage", "high", "unit-test")
}

fn finding(check: CheckSpec, construct: &str, evidence: &[(&str, &str)]) -> Finding {
    Finding {
        check,
        model_id: "model.shop.events".to_owned(),
        construct: construct.to_owned(),
        status: VerdictStatus::Uncovered,
        evidence: evidence
            .iter()
            .map(|(label, value)| Evidence {
                label: (*label).to_owned(),
                value: (*value).to_owned(),
            })
            .collect(),
        recommendation: Some("add a test".to_owned()),
        suppressed: None,
        degraded: Vec::new(),
    }
}

/// The findings on a model with a union and a unique key, handed to a check.
fn with_findings(check: impl Fn(&ReportPayload<'_>)) {
    let compiled = "with arm_a as (select * from src_a), \
                    arm_b as (select * from src_b), \
                    unioned as (select * from arm_a union all select * from arm_b) \
                    select * from unioned";
    let graph = CteGraph::new(
        vec![
            cte(compiled, "arm_a", true, &["src_a"], "select * from src_a"),
            cte(compiled, "arm_b", true, &["src_b"], "select * from src_b"),
            cte(compiled, "unioned", false, &[], "select * from arm_a union all select * from arm_b"),
            cte(compiled, TERMINAL_NODE_NAME, true, &[], "select * from unioned"),
        ],
        vec![edge(0, 2), edge(1, 2), edge(2, 3)],
    );
    let analysis = ModelAnalysis {
        graph,
        findings: vec![
            finding(grain(), "unique_key", &[("unique_key", "event_id")]),
            finding(
                union(),
                "union[unioned]",
                &[
                    ("arm", "arm_a"),
                    ("suggested given", "- input: ref('src_a')"),
                    ("arm", "arm_b"),
                    ("suggested given", "- input: ref('src_b')"),
                ],
            ),
        ],
        ..ModelAnalysis::default()
    };
    let manifest = manifest_for(vec![model_node("model.shop.events", Some(compiled))], vec![]);
    with_payload(
        &manifest,
        &[],
        &["model.shop.events"],
        vec![("model.shop.events", analysis)],
        check,
    );
}

#[test]
fn build_payload_carries_findings_for_an_unbacked_unique_key() {
    with_findings(|payload| {
        let f = &payload.models[0].findings[0];
        assert_eq!(f.finding.check.id_str, "grain.unique-key-unbacked");
        assert_eq!(f.finding.status, VerdictStatus::Uncovered);
        assert_eq!(f.finding.model_id, "model.shop.events");
        assert_eq!(f.finding.recommendation.as_deref(), Some("add a test"));
    });
}

#[test]
fn build_payload_flattens_degraded_backing_onto_the_finding_wire() {
    let mut covered = finding(grain(), "unique_key", &[]);
    covered.status = VerdictStatus::Covered;
    covered.degraded.push(DegradedBacking {
        by: "test.shop.unique_orders_rollup_order_id".to_owned(),
        causes: vec!["severity: warn".to_owned()],
    });
    let analysis = ModelAnalysis { findings: vec![covered], ..ModelAnalysis::default() };
    let manifest = manifest_for(vec![model_node("model.shop.orders_rollup", Some("select 1"))], vec![]);
    with_payload(
        &manifest,
        &[],
        &["model.shop.orders_rollup"],
        vec![("model.shop.orders_rollup", analysis)],
        |payload| {
            let f = &payload.models[0].findings[0].finding;
            assert_eq!(f.status, VerdictStatus::Covered);
            assert_eq!(f.degraded[0].by, "test.shop.unique_orders_rollup_order_id");
            assert!(f.degraded[0].causes[0].starts_with("severity: warn"));
        },
    );
}

#[test]
fn build_payload_omits_the_findings_key_when_no_check_fires() {
    let manifest = manifest_for(vec![model_node("model.shop.plain", Some("select 1"))], vec![]);
    with_payload(&manifest, &[], &["model.shop.plain"], vec![], |payload| {
        assert!(payload.models[0].findings.is_empty());
    });
}

#[test]
fn finding_payload_pins_bracketed_constructs_to_the_named_node() {
    with_findings(|payload| {
        let findings = &payload.models[0].findings;
        let union = findings
            .iter()
            .find(|f| f.finding.check.id_str == "union.arm-coverage")
            .expect("union finding fires");
        assert_eq!(union.pin_node.as_deref(), Some("unioned"));
        let grain = findings
            .iter()
            .find(|f| f.finding.check.id_str == "grain.unique-key-unbacked")
            .expect("grain finding fires");
        assert_eq!(
            grain.pin_node.as_deref(),
            Some(TERMINAL_NODE_NAME),
            "model-level constructs pin the terminal node"
        );
    });
}

fn pin(names: &[&str], construct: &str) -> Option<String> {
    let graph = CteGraph::new(names.iter().map(|n| CteNode::new(n)).collect(), vec![]);
    cute_report::findings::resolve_pin_node(&graph, construct)
}

#[test]
fn finding_payload_pins_qualified_join_constructs_to_the_consumer_node() {
    let names = ["customers", "orders", "joined", TERMINAL_NODE_NAME];
    assert_eq!(
        pin(&names, "left_join[joined:customers]").as_deref(),
        Some("joined"),
        "the qualified construct pins the consumer CTE"
    );
}

#[test]
fn finding_payload_omits_pin_node_when_the_graph_is_empty() {
    assert!(pin(&[], "unique_key").is_none(), "empty graph ⇒ pin_node omitted");
    assert!(pin(&[], "union[unioned]").is_none());
}

#[test]
fn a_pin_names_a_whole_bracket_first() {
    let names = ["A:b", "a", TERMINAL_NODE_NAME];
    assert_eq!(pin(&names, "x[a:B]").as_deref(), Some("A:b"));
    assert_eq!(pin(&names, "x[a:c]").as_deref(), Some("a"));
    assert_eq!(pin(&names, "x[:c]"), None);
    assert_eq!(pin(&[TERMINAL_NODE_NAME], "union[ghost]"), None, "the named node is not there");
    assert_eq!(pin(&[TERMINAL_NODE_NAME], "union[ghost:a]"), None);
    assert_eq!(pin(&names, "unique_key").as_deref(), Some(TERMINAL_NODE_NAME));
    assert_eq!(pin(&names, "x[a] y").as_deref(), Some(TERMINAL_NODE_NAME), "not at the end");
    assert_eq!(pin(&names, "x[").as_deref(), Some(TERMINAL_NODE_NAME));
    assert_eq!(pin(&["a"], "x[b]"), None);
}

#[test]
fn finding_payload_lifts_suggested_given_sketches_out_of_evidence() {
    with_findings(|payload| {
        let union = payload.models[0]
            .findings
            .iter()
            .find(|f| f.finding.check.id_str == "union.arm-coverage")
            .expect("union finding fires");
        assert!(!union.sketches.is_empty(), "uncovered arms carry sketches");
        assert_eq!(union.sketches, ["- input: ref('src_a')", "- input: ref('src_b')"]);
        assert!(
            union.sketches.iter().all(|s| s.starts_with("- input: ref('")),
            "each sketch is the copy-pasteable given-row YAML: {:?}",
            union.sketches
        );
        let labels: Vec<&str> = union.finding.evidence.iter().map(|e| e.label.as_str()).collect();
        assert_eq!(labels, ["arm", "arm"]);
        assert!(
            !labels.contains(&"suggested given"),
            "sketch entries are LIFTED, not duplicated: {labels:?}"
        );
    });
}

#[test]
fn report_payload_carries_the_check_spec_catalog_for_fired_checks() {
    with_findings(|payload| {
        let specs = &payload.check_specs;
        assert_eq!(specs.len(), 2, "exactly the fired checks");
        let grain = specs.get("grain.unique-key-unbacked").unwrap();
        assert_eq!(grain.tier, "total");
        assert_eq!(grain.instrument, "data-test");
        assert!(!grain.rationale.is_empty(), "rationale embeds inline (zero-egress)");
        assert!(!grain.conditions.is_empty(), "conditions embed inline");
        assert_eq!(
            grain.book_href,
            "https://breezy-bays-labs.github.io/cute-dbt/checks/grain.unique-key-unbacked.html",
        );
        assert_eq!(
            specs.get("union.arm-coverage").unwrap().tier,
            "high",
            "tier vocabulary rides per check, never blended"
        );
    });
}

#[test]
fn report_payload_omits_check_specs_when_no_finding_fires() {
    let manifest = manifest_for(vec![model_node("model.shop.plain", Some("select 1"))], vec![]);
    with_payload(&manifest, &[], &["model.shop.plain"], vec![], |payload| {
        assert!(payload.check_specs.is_empty(), "no findings ⇒ no check_specs");
    });
}

// ---------------------------------------------------------------------
// What stands around the models
// ---------------------------------------------------------------------

fn surroundings(pr_ref: Option<&PrRef>) -> Surroundings<'_> {
    Surroundings {
        governance: None,
        governance_visible: false,
        macro_lens: None,
        pr_ref,
        seed_cards: Vec::new(),
        seed_row_cap: 500,
        pr_dag: None,
        removed_models: vec!["models/gone.sql".to_owned()],
        pr_comments: None,
    }
}

#[test]
fn only_a_report_on_a_pull_request_shows_it() {
    let manifest = manifest_for(vec![], vec![]);
    let pr = PrRef { number: 7, title: "T".to_owned(), url: "https://x".to_owned() };
    let facts = ProjectFacts {
        panel: Some(ProjectChangePanel::Categorized { changes: Vec::new() }),
        ..ProjectFacts::default()
    };
    let (yaml, diffs, outcomes, data) = (StrMap::new(), StrMap::new(), StrMap::new(), StrMap::new());
    let payload = || {
        build_payload(
            &manifest,
            &StrSet::new(),
            &StrSet::new(),
            &yaml,
            &diffs,
            &diffs,
            &outcomes,
            &data,
            "b",
            StrMap::new(),
        )
    };
    let scope = set(&["unit_test.shop.a"]);
    let view = compose_report(&manifest, payload(), &scope, ScopeSource::PrDiff, &facts, surroundings(Some(&pr)));
    assert_eq!(view.banner_text, "Showing 1 unit test in scope");
    assert!(view.is_pr_diff && view.has_project_state && !view.has_governance);
    assert_eq!(view.pr_ref, Some(&pr));
    assert_eq!(view.payload.pr_ref.as_ref().unwrap().number, 7);
    assert_eq!(view.payload.removed_models, ["models/gone.sql"]);
    assert!(view.project_panel.as_ref().unwrap().is_empty_change);
    let view = compose_report(
        &manifest,
        payload(),
        &scope,
        ScopeSource::Baseline,
        &ProjectFacts::default(),
        surroundings(Some(&pr)),
    );
    assert!(view.pr_ref.is_none() && view.payload.pr_ref.is_none());
    assert!(!view.is_pr_diff && !view.has_project_state && view.project_panel.is_none());
}

#[test]
fn project_state_is_what_the_report_shows() {
    let manifest = manifest_for(vec![model_node("model.shop.a", Some("select 1"))], vec![]);
    let reference = || {
        vec![VarReference { name: "v".to_owned(), tier: "direct".to_owned(), via: None }]
    };
    let state = |references: StrMap<Vec<VarReference>>| {
        let facts = ProjectFacts { var_references: references, ..ProjectFacts::default() };
        let (yaml, diffs, outcomes, data) = (StrMap::new(), StrMap::new(), StrMap::new(), StrMap::new());
        let (fixtures, axes, states) = (StrMap::new(), StrMap::new(), StrMap::new());
        let payload = build_payload_with_externals(
            &manifest,
            &StrSet::new(),
            &set(&["model.shop.a"]),
            &yaml,
            &diffs,
            &diffs,
            &outcomes,
            &data,
            &fixtures,
            "b",
            StrMap::new(),
            &facts,
            &axes,
            &states,
        );
        let view = compose_report(
            &manifest,
            payload,
            &StrSet::new(),
            ScopeSource::PrDiff,
            &facts,
            surroundings(None),
        );
        view.has_project_state
    };
    assert!(!state(StrMap::new()));
    assert!(state(map(vec![("model.shop.a", reference())])));
    assert!(!state(map(vec![("model.shop.elsewhere", reference())])), "the model is not shown");
    assert!(!state(map(vec![("model.shop.a", Vec::new())])), "there is nothing on it");
}

#[test]
fn a_versioned_model_goes_by_its_name() {
    let mut node = model_node("model.shop.dim_customers.v2", Some("select 1"));
    node.name = Some("dim_customers".to_owned());
    node.description = Some("Customers.".to_owned());
    let manifest = manifest_for(vec![node], vec![]);
    let graph = CteGraph::new(vec![CteNode::new(TERMINAL_NODE_NAME)], vec![]);
    with_payload(
        &manifest,
        &[],
        &["model.shop.dim_customers.v2"],
        vec![("model.shop.dim_customers.v2", analysed(graph))],
        |payload| {
            assert_eq!(payload.models[0].name, "dim_customers");
            assert_eq!(payload.models[0].dag.nodes[0].label.as_deref(), Some("dim_customers.sql"));
            assert_eq!(keys(&payload.manifest_nodes), ["dim_customers"]);
        },
    );
}

#[test]
fn facts_on_governance_may_have_nothing_to_be_seen() {
    let manifest = manifest_for(vec![], vec![]);
    let (yaml, diffs, outcomes, data) = (StrMap::new(), StrMap::new(), StrMap::new(), StrMap::new());
    for visible in [false, true] {
        let payload = build_payload(
            &manifest,
            &StrSet::new(),
            &StrSet::new(),
            &yaml,
            &diffs,
            &diffs,
            &outcomes,
            &data,
            "b",
            StrMap::new(),
        );
        let around = Surroundings {
            governance: Some(json(r#"{"groups": []}"#)),
            governance_visible: visible,
            ..surroundings(None)
        };
        let view = compose_report(
            &manifest,
            payload,
            &StrSet::new(),
            ScopeSource::Baseline,
            &ProjectFacts::default(),
            around,
        );
        assert_eq!(view.has_governance, visible);
        assert_eq!(view.payload.governance, Some(json(r#"{"groups": []}"#)));
    }
}
