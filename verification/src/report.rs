//! The report: one payload per model in scope, and what stands around them.
use vstd::prelude::*;
use vstd::string::*;
use crate::catalog::{
    build_manifest_nodes, index_tests_for_models, is_lookup, is_test_index,
    lemma_mentioned_by_scope, test_refs, tests_for, tests_in, ManifestNodePayload, TestRef,
};
use crate::columns::{column_meta_for_model, column_tests, is_column_meta, ColumnMetaPayload};
use crate::dag::{
    build_edge_payloads, build_node_payloads, draws_edges, draws_node, draws_nodes, DagPayload,
    EdgePayload, NodePayload,
};
use crate::domain::{
    first_index, lemma_first_index, BlockDiff, ColumnEdge, CteGraph, Manifest, Node, UnitTest,
    UnitTestDataDiff, TERMINAL_NODE_NAME,
};
use crate::findings::{
    check_spec_payload, explains, finding_payload, shows_finding, CheckSpec, CheckSpecPayload,
    Finding, FindingPayload,
};
use crate::jinja::text_zones;
use crate::macros::{MacroLensPayload, ScopeSource};
use crate::panel::{
    project_panel_view, shows_panel, ConfigAttribution, ProjectChangePanel, ProjectPanelView,
};
use crate::pr_dag::PrDagPayload;
use crate::seeds::{build_seed_section, shows_seeds, SeedCard, SeedSectionCard};
use crate::sourcemap::{
    append_zone_entries, build_compiled_sql, entry_key, fill_raw_spans, is_graph_map,
    law_sql_is_code_map_slice, lemma_span_keys, side, slices_of, spans_by_key, with_raw, zone_entry,
    CodeMapPayload, SourceMap, SourceMapEntry,
};
use crate::span::{sliceable, SourceSpan};
use crate::table::{StrMap, StrSet};
use crate::text::{decimal, decimal_text, opt_text, same_text};
use crate::unit_tests::{
    build_test_payload, shows_test, ExternalFixtures, TestExtras, TestPayload, UnitTestYamlBlock,
};

verus! {

// ---------------------------------------------------------------------
// The YAML of a model
// ---------------------------------------------------------------------

/// What came of looking for the YAML entry of a model.
#[derive(Debug, PartialEq, Eq)]
pub enum ModelYamlOutcome {
    Found { path: String, block: UnitTestYamlBlock, diff: Option<BlockDiff> },
    NoPatchPath,
    NoProjectRoot { path: String },
    FileMissing { path: String },
    Unreadable { path: String },
    EntryNotFound { path: String },
}

/// The YAML entry of a model as the report shows it: the entry, or what is
/// missing.
#[derive(Debug, PartialEq, Eq)]
pub struct ModelYamlPayload<'a> {
    pub path: Option<String>,
    pub raw: Option<String>,
    pub diff: Option<&'a BlockDiff>,
    pub missing: Option<String>,
}

/// The copy where no schema file declares the model.
pub const NO_SCHEMA_FILE: &'static str = "No schema file declares this model in the manifest — there is no authored \
                 models: entry to show.";

/// The file that was looked in.
pub open spec fn yaml_path(o: ModelYamlOutcome) -> Option<Seq<char>> {
    match o {
        ModelYamlOutcome::Found { path, .. } => Some(path@),
        ModelYamlOutcome::NoPatchPath => None,
        ModelYamlOutcome::NoProjectRoot { path } => Some(path@),
        ModelYamlOutcome::FileMissing { path } => Some(path@),
        ModelYamlOutcome::Unreadable { path } => Some(path@),
        ModelYamlOutcome::EntryNotFound { path } => Some(path@),
    }
}

/// What is said to be missing; nothing where the entry was found.
pub open spec fn yaml_missing(o: ModelYamlOutcome, name: Seq<char>) -> Option<Seq<char>> {
    match o {
        ModelYamlOutcome::Found { .. } => None,
        ModelYamlOutcome::NoPatchPath => Some(NO_SCHEMA_FILE@),
        ModelYamlOutcome::NoProjectRoot { path } => Some(
            "Schema file "@ + path@
                + " was not read — re-run with --project-root to surface the authored model YAML."@,
        ),
        ModelYamlOutcome::FileMissing { path } => Some(
            "Schema file "@ + path@ + " was not found under the project root."@,
        ),
        ModelYamlOutcome::Unreadable { path } => Some(
            "Schema file "@ + path@ + " could not be read."@,
        ),
        ModelYamlOutcome::EntryNotFound { path } => Some(
            "No models: entry named \""@ + name + "\" was found in "@ + path@ + "."@,
        ),
    }
}

/// `p` shows the outcome `o` for the model called `name`.
pub open spec fn shows_yaml(p: ModelYamlPayload<'_>, o: ModelYamlOutcome, name: Seq<char>) -> bool {
    &&& opt_text(p.path) == yaml_path(o)
    &&& opt_text(p.missing) == yaml_missing(o, name)
    &&& match o {
        ModelYamlOutcome::Found { block, diff, .. } => {
            &&& p.raw == Some(block.raw)
            &&& crate::unit_tests::refers(p.diff, diff)
        },
        _ => p.raw is None && p.diff is None,
    }
}

fn degraded<'a>(path: &String, missing: String) -> (r: ModelYamlPayload<'a>)
    ensures
        opt_text(r.path) == Some(path@),
        r.raw is None,
        r.diff is None,
        opt_text(r.missing) == Some(missing@),
{
    ModelYamlPayload { path: Some(path.clone()), raw: None, diff: None, missing: Some(missing) }
}

/// The YAML entry of a model as the report shows it; `None` where nobody
/// looked for it.
pub fn model_yaml_payload<'a>(outcome: Option<&'a ModelYamlOutcome>, model_name: &str) -> (r:
    Option<ModelYamlPayload<'a>>)
    ensures
        r is Some <==> outcome is Some,
        outcome matches Some(o) ==> shows_yaml(r->0, *o, model_name@),
{
    let o: &'a ModelYamlOutcome = match outcome {
        Some(o) => o,
        None => {
            return None;
        },
    };
    let payload: ModelYamlPayload<'a> = match o {
        ModelYamlOutcome::Found { path, block, diff } => ModelYamlPayload {
            path: Some(path.clone()),
            raw: Some(block.raw.clone()),
            diff: diff.as_ref(),
            missing: None,
        },
        ModelYamlOutcome::NoPatchPath => ModelYamlPayload {
            path: None,
            raw: None,
            diff: None,
            missing: Some(NO_SCHEMA_FILE.to_owned()),
        },
        ModelYamlOutcome::NoProjectRoot { path } => {
            let mut s: String = "Schema file ".to_owned();
            s.append(path.as_str());
            s.append(
                " was not read — re-run with --project-root to surface the authored model YAML.",
            );
            degraded(path, s)
        },
        ModelYamlOutcome::FileMissing { path } => {
            let mut s: String = "Schema file ".to_owned();
            s.append(path.as_str());
            s.append(" was not found under the project root.");
            degraded(path, s)
        },
        ModelYamlOutcome::Unreadable { path } => {
            let mut s: String = "Schema file ".to_owned();
            s.append(path.as_str());
            s.append(" could not be read.");
            degraded(path, s)
        },
        ModelYamlOutcome::EntryNotFound { path } => {
            let mut s: String = "No models: entry named \"".to_owned();
            s.append(model_name);
            s.append("\" was found in ");
            s.append(path.as_str());
            s.append(".");
            degraded(path, s)
        },
    };
    Some(payload)
}

/// Law: the report shows the YAML entry of a model or says what is missing,
/// never both and never neither.
pub proof fn law_yaml_or_reason(p: ModelYamlPayload<'_>, o: ModelYamlOutcome, name: Seq<char>)
    requires
        shows_yaml(p, o, name),
    ensures
        p.raw is Some <==> p.missing is None,
        p.diff is Some ==> p.raw is Some,
{
}

// ---------------------------------------------------------------------
// Small parts
// ---------------------------------------------------------------------

/// In which ways a model changed.
#[derive(Debug, Clone, Copy, PartialEq, Eq, Structural)]
pub struct ChangeAxes {
    pub body: bool,
    pub config: bool,
    pub unit_test: bool,
}

/// In which ways a model changed, as the report shows it.
#[derive(Debug, Clone, Copy, PartialEq, Eq, Structural)]
pub struct AxesPayload {
    pub body: bool,
    pub config: bool,
    pub unit_test: bool,
}

impl From<ChangeAxes> for AxesPayload {
    fn from(axes: ChangeAxes) -> (r: Self) {
        AxesPayload { body: axes.body, config: axes.config, unit_test: axes.unit_test }
    }
}

impl vstd::std_specs::convert::FromSpecImpl<ChangeAxes> for AxesPayload {
    open spec fn obeys_from_spec() -> bool {
        true
    }

    open spec fn from_spec(axes: ChangeAxes) -> Self {
        AxesPayload { body: axes.body, config: axes.config, unit_test: axes.unit_test }
    }
}

/// What happened to a model.
#[derive(Debug, Clone, Copy, PartialEq, Eq, Structural)]
pub enum ModelState {
    New,
    Modified,
    Removed,
}

/// The name of a state in the report.
pub open spec fn state_text(state: ModelState) -> Seq<char> {
    match state {
        ModelState::New => "new"@,
        ModelState::Modified => "modified"@,
        ModelState::Removed => "removed"@,
    }
}

/// The name of a state in the report.
pub fn model_state_wire(state: ModelState) -> (r: &'static str)
    ensures
        r@ == state_text(state),
{
    match state {
        ModelState::New => "new",
        ModelState::Modified => "modified",
        ModelState::Removed => "removed",
    }
}

/// A pull request.
#[derive(Debug, PartialEq, Eq)]
pub struct PrRef {
    pub number: u64,
    pub title: String,
    pub url: String,
}

/// A pull request as the report shows it.
#[derive(Debug, PartialEq, Eq)]
pub struct PrRefPayload {
    pub number: u64,
    pub title: String,
    pub url: String,
}

impl From<&PrRef> for PrRefPayload {
    fn from(pr: &PrRef) -> (r: Self) {
        PrRefPayload { number: pr.number, title: pr.title.clone(), url: pr.url.clone() }
    }
}

impl vstd::std_specs::convert::FromSpecImpl<&PrRef> for PrRefPayload {
    open spec fn obeys_from_spec() -> bool {
        true
    }

    open spec fn from_spec(pr: &PrRef) -> Self {
        PrRefPayload { number: pr.number, title: pr.title, url: pr.url }
    }
}

/// The banner of a report with no unit test in scope.
pub const BANNER_EMPTY_SCOPE: &'static str = "0 unit tests in scope";

/// The banner of a report with `n` unit tests in scope.
pub open spec fn banner(n: nat) -> Seq<char> {
    if n == 0 {
        BANNER_EMPTY_SCOPE@
    } else {
        "Showing "@ + decimal(n) + (if n == 1 {
            " unit test"@
        } else {
            " unit tests"@
        }) + " in scope"@
    }
}

/// The banner of a report, from the unit tests in scope.
pub fn compose_banner_text(in_scope: &StrSet) -> (r: String)
    ensures
        r@ == banner(in_scope.list().len()),
{
    let n: usize = in_scope.len();
    if n == 0 {
        return BANNER_EMPTY_SCOPE.to_owned();
    }
    let mut s: String = "Showing ".to_owned();
    s.append(decimal_text(n).as_str());
    if n == 1 {
        s.append(" unit test");
    } else {
        s.append(" unit tests");
    }
    s.append(" in scope");
    s
}

// ---------------------------------------------------------------------
// A model
// ---------------------------------------------------------------------

/// A data test on a column, by its kind.
#[derive(Debug, PartialEq, Eq)]
pub struct ColumnContextTest {
    pub kind: String,
}

/// What is declared of a column, and how it is tested.
#[derive(Debug, PartialEq, Eq)]
pub struct ColumnContext {
    pub data_type: Option<String>,
    pub description: Option<String>,
    pub documented: bool,
    pub tests: Vec<ColumnContextTest>,
}

/// What is known of the columns of a model and of where they come from.
#[derive(Debug, PartialEq)]
pub struct ColumnLineagePayload {
    pub context: StrMap<ColumnContext>,
    pub edges: Vec<ColumnEdge>,
}

/// A use of a var by a model.
#[derive(Debug, PartialEq, Eq)]
pub struct VarReference {
    pub name: String,
    pub tier: String,
    pub via: Option<String>,
}

/// What was found out about the code of a model: its graph, where its nodes
/// and columns stand in the raw code, what is known of its columns, and the
/// findings of the checks.
#[derive(Debug, PartialEq)]
pub struct ModelAnalysis {
    pub graph: CteGraph,
    pub raw_spans: StrMap<SourceSpan>,
    pub column_context: StrMap<ColumnContext>,
    pub findings: Vec<Finding>,
}

/// A model as the report shows it.
#[derive(Debug, PartialEq)]
pub struct ModelPayload<'a> {
    pub name: String,
    pub path: Option<String>,
    pub description: Option<String>,
    pub dag: DagPayload,
    pub compiled_sql: StrMap<String>,
    pub code_map: Option<CodeMapPayload>,
    pub column_lineage: Option<ColumnLineagePayload>,
    pub raw_sql: Option<String>,
    pub sql_diff: Option<&'a BlockDiff>,
    pub model_yaml: Option<ModelYamlPayload<'a>>,
    pub tests: Vec<TestPayload<'a>>,
    pub is_recursive: bool,
    pub is_incremental: bool,
    pub findings: Vec<FindingPayload>,
    pub config_attributions: Option<&'a Vec<ConfigAttribution>>,
    pub var_references: Option<&'a Vec<VarReference>>,
    pub axes: Option<AxesPayload>,
    pub config_file: Option<String>,
    pub state: Option<&'static str>,
}

/// What was gathered for a report beside the manifest, by the ids of unit
/// tests and models.
#[derive(Clone, Copy)]
pub struct Gathered<'a> {
    pub authoring_yaml: &'a StrMap<UnitTestYamlBlock>,
    pub yaml_diffs: &'a StrMap<BlockDiff>,
    pub sql_diffs: &'a StrMap<BlockDiff>,
    pub model_yaml: &'a StrMap<ModelYamlOutcome>,
    pub data_diffs: &'a StrMap<UnitTestDataDiff>,
    pub external_fixtures: Option<&'a StrMap<ExternalFixtures>>,
}

/// The table `o`, or an empty one where there is none.
pub open spec fn table_or_empty<V>(o: Option<&StrMap<V>>) -> Map<Seq<char>, V> {
    match o {
        Some(t) => t@,
        None => Map::empty(),
    }
}

/// What the table `o` holds under `key`.
fn get_in<'a, V>(o: Option<&'a StrMap<V>>, key: &str) -> (r: Option<&'a V>)
    ensures
        r == entry_ref(table_or_empty(o), key@),
        refers_to_entry(r, table_or_empty(o), key@),
{
    match o {
        Some(t) => t.get(key),
        None => None,
    }
}

/// `o` refers to what `map` holds under `key`, where it holds anything.
pub open spec fn refers_to_entry<V>(
    o: Option<&V>,
    map: Map<Seq<char>, V>,
    key: Seq<char>,
) -> bool {
    match o {
        Some(v) => map.dom().contains(key) && map[key] == *v,
        None => !map.dom().contains(key),
    }
}

/// A reference to what `map` holds under `key`.
pub open spec fn entry_ref<'a, V>(map: Map<Seq<char>, V>, key: Seq<char>) -> Option<&'a V> {
    if map.dom().contains(key) {
        Some(&map[key])
    } else {
        None
    }
}

/// What was gathered for the unit test `id`.
pub open spec fn extras_of<'a>(g: Gathered<'a>, id: Seq<char>) -> TestExtras<'a> {
    TestExtras {
        authoring_yaml: entry_ref(g.authoring_yaml@, id),
        yaml_diff: entry_ref(g.yaml_diffs@, id),
        data_diff: entry_ref(g.data_diffs@, id),
        external: entry_ref(table_or_empty(g.external_fixtures), id),
    }
}

/// The raw code of a model, where it is not empty.
pub open spec fn solid_raw(model: Node) -> Option<Seq<char>> {
    match model.raw_code {
        Some(s) => if s@.len() > 0 {
            Some(s@)
        } else {
            None
        },
        None => None,
    }
}

/// The compiled code of a model; empty where it has none.
pub open spec fn compiled_of(model: Node) -> Seq<char> {
    match model.compiled_code {
        Some(s) => s@,
        None => Seq::empty(),
    }
}

/// The entries of a source map with one for each control zone of the raw code
/// of a model, and with the raw spans that were located.
pub open spec fn completed(
    entries: Seq<SourceMapEntry>,
    model: Node,
    located: Map<Seq<char>, SourceSpan>,
) -> Seq<SourceMapEntry> {
    match solid_raw(model) {
        Some(raw) => (entries + text_zones(vstd::utf8::encode_utf8(raw)).map_values(
            |z: crate::jinja::ZoneFact|
                zone_entry(
                    vstd::utf8::encode_utf8(raw),
                    z,
                    vstd::utf8::encode_utf8(compiled_of(model)),
                ),
        )).map_values(|e: SourceMapEntry| with_raw(e, located)),
        None => entries,
    }
}

/// `sm` is the source map of a model: that of its graph, completed from its
/// raw code.
pub open spec fn is_model_map(sm: SourceMap, model: Node, a: ModelAnalysis) -> bool {
    exists|base: SourceMap| #[trigger]
        is_graph_map(base, a.graph, compiled_of(model), TERMINAL_NODE_NAME@) && sm.compiled
            == base.compiled && sm.entries@ == completed(base.entries@, model, a.raw_spans@)
}

/// `p` shows the test `t` of a model.
pub open spec fn shows_model_test(
    p: TestPayload<'_>,
    t: (Seq<char>, UnitTest),
    graph: CteGraph,
    changed: Set<Seq<char>>,
    g: Gathered<'_>,
    m: Manifest,
    model: Node,
) -> bool {
    exists|target: Map<Seq<char>, ColumnMetaPayload>| #[trigger]
        is_column_meta(target, model.column_descriptions@, column_tests(m, model.id@))
            && shows_test(p, t.0, t.1, graph, changed, extras_of(g, t.0), m, target)
}

/// `out` shows the findings, in order.
pub open spec fn shows_findings(
    out: Seq<FindingPayload>,
    findings: Seq<Finding>,
    graph: CteGraph,
) -> bool {
    &&& out.len() == findings.len()
    &&& forall|i: int| 0 <= i < out.len() ==> shows_finding(#[trigger] out[i], findings[i], graph)
}

/// `p` shows the code of a model: its graph, the text of each node, and the
/// source map with the control zones.
pub open spec fn shows_code(p: ModelPayload<'_>, model: Node, a: ModelAnalysis) -> bool {
    &&& draws_nodes(p.dag.nodes@, a.graph, model.ref_name())
    &&& draws_edges(p.dag.edges@, a.graph)
    &&& p.is_recursive == a.graph.is_recursive
    &&& opt_text(p.raw_sql) == solid_raw(model)
    &&& p.code_map is Some <==> compiled_of(model).len() > 0
    &&& p.code_map is Some ==> exists|sm: SourceMap| #[trigger]
        is_model_map(sm, model, a) && p.code_map->0.projects(sm) && slices_of(p.compiled_sql@, sm)
    &&& p.code_map is None ==> p.compiled_sql@ == Map::<Seq<char>, String>::empty()
    &&& match p.column_lineage {
        Some(l) => l.context == a.column_context && l.edges == a.graph.column_edges && !(
        a.column_context.entries().len() == 0 && a.graph.column_edges@.len() == 0),
        None => a.column_context.entries().len() == 0 && a.graph.column_edges@.len() == 0,
    }
    &&& shows_findings(p.findings@, a.findings@, a.graph)
}

/// `p` shows `model`, with the unit tests `tests`.
pub open spec fn shows_model(
    p: ModelPayload<'_>,
    m: Manifest,
    model: Node,
    tests: Seq<(Seq<char>, UnitTest)>,
    changed: Set<Seq<char>>,
    g: Gathered<'_>,
    a: ModelAnalysis,
) -> bool {
    &&& p.name@ == model.ref_name()
    &&& p.path == model.original_file_path
    &&& p.description == model.description
    &&& shows_code(p, model, a)
    &&& refers_to_entry(p.sql_diff, g.sql_diffs@, model.id@)
    &&& p.model_yaml is Some <==> g.model_yaml@.dom().contains(model.id@)
    &&& p.model_yaml is Some ==> shows_yaml(
        p.model_yaml->0,
        g.model_yaml@[model.id@],
        model.ref_name(),
    )
    &&& p.tests@.len() == tests.len()
    &&& forall|i: int|
        0 <= i < p.tests@.len() ==> shows_model_test(
            #[trigger] p.tests@[i],
            tests[i],
            a.graph,
            changed,
            g,
            m,
            model,
        )
    &&& p.is_incremental == (opt_text(model.materialized) == Some("incremental"@))
}

/// Nothing has been said of a model but what its manifest and code say.
pub open spec fn unmarked(p: ModelPayload<'_>) -> bool {
    p.config_attributions is None && p.var_references is None && p.axes is None && p.config_file
        is None && p.state is None
}

fn build_findings(graph: &CteGraph, findings: Vec<Finding>) -> (r: Vec<FindingPayload>)
    ensures
        shows_findings(r@, findings@, *graph),
{
    let mut out: Vec<FindingPayload> = Vec::new();
    for f in it: findings
        invariant
            it.seq() == findings@,
            out@.len() == it.index(),
            forall|i: int|
                0 <= i < out@.len() ==> shows_finding(#[trigger] out@[i], findings@[i], *graph),
    {
        out.push(finding_payload(graph, f));
    }
    out
}

fn build_tests<'a>(
    current: &Manifest,
    model: &Node,
    tests: &Vec<TestRef<'a>>,
    graph: &CteGraph,
    changed: &StrSet,
    g: Gathered<'a>,
) -> (r: Vec<TestPayload<'a>>)
    ensures
        r@.len() == tests@.len(),
        forall|i: int|
            0 <= i < r@.len() ==> shows_model_test(
                #[trigger] r@[i],
                test_refs(tests@)[i],
                *graph,
                changed@,
                g,
                *current,
                *model,
            ),
{
    let meta: StrMap<ColumnMetaPayload> = column_meta_for_model(current, model);
    let mut out: Vec<TestPayload<'a>> = Vec::new();
    let mut i: usize = 0;
    while i < tests.len()
        invariant
            i <= tests@.len(),
            out@.len() == i,
            is_column_meta(meta@, model.column_descriptions@, column_tests(*current, model.id@)),
            forall|j: int|
                0 <= j < i ==> shows_model_test(
                    #[trigger] out@[j],
                    test_refs(tests@)[j],
                    *graph,
                    changed@,
                    g,
                    *current,
                    *model,
                ),
        decreases tests@.len() - i,
    {
        let id: &str = tests[i].id.as_str();
        let extras: TestExtras<'a> = TestExtras {
            authoring_yaml: g.authoring_yaml.get(id),
            yaml_diff: g.yaml_diffs.get(id),
            data_diff: g.data_diffs.get(id),
            external: get_in(g.external_fixtures, id),
        };
        let p: TestPayload<'a> = build_test_payload(
            id,
            tests[i].test,
            graph,
            changed,
            extras,
            current,
            &meta,
        );
        proof {
            assert(test_refs(tests@)[i as int] == (id@, *tests@[i as int].test));
            assert(extras == extras_of(g, id@));
            assert(shows_test(
                p,
                id@,
                *tests@[i as int].test,
                *graph,
                changed@,
                extras,
                *current,
                meta@,
            ));
            assert(shows_model_test(
                p,
                test_refs(tests@)[i as int],
                *graph,
                changed@,
                g,
                *current,
                *model,
            ));
        }
        out.push(p);
        i += 1;
    }
    out
}

/// A model as the report shows it.
pub fn build_model_payload<'a>(
    current: &Manifest,
    model: &Node,
    tests: &Vec<TestRef<'a>>,
    changed: &StrSet,
    g: Gathered<'a>,
    analysis: ModelAnalysis,
) -> (r: ModelPayload<'a>)
    ensures
        shows_model(r, *current, *model, test_refs(tests@), changed@, g, analysis),
        unmarked(r),
{
    let ghost a = analysis;
    let bare: &str = model.bare_name();
    let id: &str = model.id.as_str();
    let ModelAnalysis { graph, raw_spans, column_context, findings } = analysis;
    let nodes: Vec<NodePayload> = build_node_payloads(&graph, bare);
    let edges: Vec<EdgePayload> = build_edge_payloads(&graph);
    let raw_sql: Option<String> = match &model.raw_code {
        Some(s) => if s.as_str().is_empty() {
            None
        } else {
            Some(s.clone())
        },
        None => None,
    };
    let compiled_code: String = match &model.compiled_code {
        Some(s) => s.clone(),
        None => String::new(),
    };
    let source_map: Option<SourceMap> = match SourceMap::from_cte_graph(
        &graph,
        compiled_code.as_str(),
        TERMINAL_NODE_NAME,
    ) {
        Some(base) => {
            let ghost b = base;
            let mut sm: SourceMap = base;
            if let Some(raw) = &raw_sql {
                append_zone_entries(&mut sm, raw.as_str(), compiled_code.as_str());
                fill_raw_spans(&mut sm, &raw_spans);
            }
            proof {
                assert(is_graph_map(b, a.graph, compiled_of(*model), TERMINAL_NODE_NAME@));
                assert(sm.entries@ == completed(b.entries@, *model, a.raw_spans@));
                assert(is_model_map(sm, *model, a));
            }
            Some(sm)
        },
        None => None,
    };
    let compiled_sql: StrMap<String> = build_compiled_sql(source_map.as_ref());
    let code_map: Option<CodeMapPayload> = match &source_map {
        Some(sm) => Some(CodeMapPayload::from_source_map(sm)),
        None => None,
    };
    let test_payloads: Vec<TestPayload<'a>> = build_tests(
        current,
        model,
        tests,
        &graph,
        changed,
        g,
    );
    let finding_payloads: Vec<FindingPayload> = build_findings(&graph, findings);
    let is_recursive: bool = graph.is_recursive;
    let CteGraph { nodes: _, edges: _, is_recursive: _, column_edges, column_spans: _ } = graph;
    let column_lineage: Option<ColumnLineagePayload> = if column_context.len() == 0
        && column_edges.len() == 0 {
        None
    } else {
        Some(ColumnLineagePayload { context: column_context, edges: column_edges })
    };
    let is_incremental: bool = match &model.materialized {
        Some(s) => same_text(s.as_str(), "incremental"),
        None => false,
    };
    let r: ModelPayload<'a> = ModelPayload {
        name: bare.to_owned(),
        path: model.original_file_path.clone(),
        description: model.description.clone(),
        dag: DagPayload { nodes, edges },
        compiled_sql,
        code_map,
        column_lineage,
        raw_sql,
        sql_diff: g.sql_diffs.get(id),
        model_yaml: model_yaml_payload(g.model_yaml.get(id), bare),
        tests: test_payloads,
        is_recursive,
        is_incremental,
        findings: finding_payloads,
        config_attributions: None,
        var_references: None,
        axes: None,
        config_file: None,
        state: None,
    };
    proof {
        if source_map is Some {
            let sm = source_map->0;
            assert(is_model_map(sm, *model, a) && r.code_map->0.projects(sm) && slices_of(
                r.compiled_sql@,
                sm,
            ));
        }
    }
    r
}

/// The entries of a source map keep their roles and compiled spans where it is
/// completed, and the zones that are added are neither nodes nor columns.
proof fn lemma_completed(
    entries: Seq<SourceMapEntry>,
    model: Node,
    located: Map<Seq<char>, SourceSpan>,
    columns: bool,
    k: Seq<char>,
)
    ensures
        spans_by_key(completed(entries, model, located), columns, false).dom().contains(k)
            <==> spans_by_key(entries, columns, false).dom().contains(k),
{
    let all = completed(entries, model, located);
    lemma_span_keys(all, columns, false, k);
    lemma_span_keys(entries, columns, false, k);
    if spans_by_key(entries, columns, false).dom().contains(k) {
        let i = choose|i: int|
            0 <= i < entries.len() && entry_key(#[trigger] entries[i], columns) == Some(k) && side(
                entries[i],
                false,
            ) is Some;
        assert(entry_key(all[i], columns) == Some(k) && side(all[i], false) is Some);
    }
    if spans_by_key(all, columns, false).dom().contains(k) {
        let i = choose|i: int|
            0 <= i < all.len() && entry_key(#[trigger] all[i], columns) == Some(k) && side(
                all[i],
                false,
            ) is Some;
        assert(i < entries.len());
        assert(entry_key(entries[i], columns) == Some(k));
    }
}

/// Law: the code map has a span for each node of the graph whose body was
/// found in the compiled code, and for no other node; the final select of a
/// model without a graph is all of its code.
pub proof fn law_nodes_have_spans(p: ModelPayload<'_>, model: Node, a: ModelAnalysis, k: Seq<char>)
    requires
        shows_code(p, model, a),
        compiled_of(model).len() > 0,
    ensures
        p.code_map is Some,
        a.graph.nodes@.len() > 0 ==> (p.code_map->0.node_spans@.dom().contains(k) <==> exists|i: int|
            0 <= i < p.dag.nodes@.len() && (#[trigger] p.dag.nodes@[i]).id@ == k
                && a.graph.nodes@[i].span is Some),
        a.graph.nodes@.len() == 0 ==> (p.code_map->0.node_spans@.dom().contains(k) <==> k
            == TERMINAL_NODE_NAME@),
{
    let sm = choose|sm: SourceMap| #[trigger]
        is_model_map(sm, model, a) && p.code_map->0.projects(sm) && slices_of(p.compiled_sql@, sm);
    let base = choose|base: SourceMap| #[trigger]
        is_graph_map(base, a.graph, compiled_of(model), TERMINAL_NODE_NAME@) && sm.compiled
            == base.compiled && sm.entries@ == completed(base.entries@, model, a.raw_spans@);
    lemma_completed(base.entries@, model, a.raw_spans@, false, k);
    lemma_span_keys(base.entries@, false, false, k);
    let es = base.entries@;
    let nodes = a.graph.nodes@;
    let has = exists|i: int|
        0 <= i < es.len() && entry_key(#[trigger] es[i], false) == Some(k) && side(es[i], false)
            is Some;
    if nodes.len() > 0 {
        if has {
            let i = choose|i: int|
                0 <= i < es.len() && entry_key(#[trigger] es[i], false) == Some(k) && side(
                    es[i],
                    false,
                ) is Some;
            assert(i < nodes.len());
            assert(draws_node(p.dag.nodes@[i], a.graph, model.ref_name(), i));
            assert(p.dag.nodes@[i].id@ == k);
        }
        if exists|i: int|
            0 <= i < p.dag.nodes@.len() && (#[trigger] p.dag.nodes@[i]).id@ == k && nodes[i].span
                is Some {
            let i = choose|i: int|
                0 <= i < p.dag.nodes@.len() && (#[trigger] p.dag.nodes@[i]).id@ == k
                    && nodes[i].span is Some;
            assert(draws_node(p.dag.nodes@[i], a.graph, model.ref_name(), i));
            assert(entry_key(es[i], false) == Some(k));
        }
    } else {
        if has {
            let i = choose|i: int|
                0 <= i < es.len() && entry_key(#[trigger] es[i], false) == Some(k) && side(
                    es[i],
                    false,
                ) is Some;
            if i > 0 {
                assert(es.skip(1)[i - 1] == es[i]);
            }
        }
        assert(entry_key(es[0], false) == Some(TERMINAL_NODE_NAME@));
    }
}

/// Law: the text that a model shows for a node is, byte for byte, the part of
/// the model's compiled code under the span that its code map has for the
/// node. A node of the code map is left without a text only where its span is
/// no range of the compiled code.
pub proof fn law_sql_is_slice(p: ModelPayload<'_>, model: Node, a: ModelAnalysis, k: Seq<char>)
    requires
        shows_code(p, model, a),
    ensures
        p.compiled_sql@.dom().contains(k) ==> {
            &&& p.code_map is Some
            &&& p.code_map->0.compiled@ == compiled_of(model)
            &&& p.code_map->0.node_spans@.dom().contains(k)
            &&& vstd::utf8::encode_utf8(p.compiled_sql@[k]@) == vstd::utf8::encode_utf8(
                compiled_of(model),
            ).subrange(
                p.code_map->0.node_spans@[k].start.byte as int,
                p.code_map->0.node_spans@[k].end.byte as int,
            )
        },
        p.code_map is Some && p.code_map->0.node_spans@.dom().contains(k)
            && !p.compiled_sql@.dom().contains(k) ==> !sliceable(
            vstd::utf8::encode_utf8(compiled_of(model)),
            p.code_map->0.node_spans@[k].start.byte as int,
            p.code_map->0.node_spans@[k].end.byte as int,
        ),
{
    if p.code_map is Some {
        let sm = choose|sm: SourceMap| #[trigger]
            is_model_map(sm, model, a) && p.code_map->0.projects(sm) && slices_of(
                p.compiled_sql@,
                sm,
            );
        if p.compiled_sql@.dom().contains(k) {
            law_sql_is_code_map_slice(p.compiled_sql@, p.code_map->0, sm, k);
        }
    }
}

// ---------------------------------------------------------------------
// The report
// ---------------------------------------------------------------------

/// What is known of the project file: its definition, how it changed, and
/// which settings and vars reach which models.
#[derive(Debug, PartialEq)]
pub struct ProjectFacts {
    pub definition: Option<serde_json::Value>,
    pub panel: Option<ProjectChangePanel>,
    pub config_attributions: StrMap<Vec<ConfigAttribution>>,
    pub var_references: StrMap<Vec<VarReference>>,
}

impl Default for ProjectFacts {
    fn default() -> (r: Self)
        ensures
            r.definition is None,
            r.panel is None,
            r.config_attributions@ == Map::<Seq<char>, Vec<ConfigAttribution>>::empty(),
            r.var_references@ == Map::<Seq<char>, Vec<VarReference>>::empty(),
            r.config_attributions.entries().len() == 0,
            r.var_references.entries().len() == 0,
    {
        ProjectFacts {
            definition: None,
            panel: None,
            config_attributions: StrMap::new(),
            var_references: StrMap::new(),
        }
    }
}

/// The data of a report.
#[derive(Debug, PartialEq)]
pub struct ReportPayload<'a> {
    pub baseline: String,
    pub models: Vec<ModelPayload<'a>>,
    /// The models that the report mentions, by name.
    pub manifest_nodes: StrMap<ManifestNodePayload>,
    /// The checks that found something, by id.
    pub check_specs: StrMap<CheckSpecPayload>,
    pub project_definition: Option<&'a serde_json::Value>,
    pub project_change_panel: Option<&'a ProjectChangePanel>,
    /// What is known of owners and contracts, where there is anything.
    pub governance: Option<serde_json::Value>,
    pub macro_lens: Option<MacroLensPayload>,
    pub pr_ref: Option<PrRefPayload>,
    pub seed_cards: Vec<SeedSectionCard>,
    pub pr_dag: Option<PrDagPayload>,
    pub removed_models: Vec<String>,
    /// The review comments, where there are any.
    pub pr_comments: Option<serde_json::Value>,
}

/// The ids in `scope` that the manifest has a node for.
pub open spec fn known_ids(m: Manifest, scope: Seq<Seq<char>>) -> Seq<Seq<char>> {
    scope.filter(|id: Seq<char>| m.nodes@.dom().contains(id))
}

/// `a` is an analysis that found out nothing.
pub open spec fn is_blank(a: ModelAnalysis) -> bool {
    &&& a.graph.nodes@.len() == 0
    &&& a.graph.edges@.len() == 0
    &&& !a.graph.is_recursive
    &&& a.graph.column_edges@.len() == 0
    &&& a.graph.column_spans@.len() == 0
    &&& a.raw_spans@ == Map::<Seq<char>, SourceSpan>::empty()
    &&& a.column_context.entries().len() == 0
    &&& a.findings@.len() == 0
}

/// `a` is the analysis of the model `id`, or a blank one where there is none.
pub open spec fn is_analysis_of(
    a: ModelAnalysis,
    analyses: Map<Seq<char>, ModelAnalysis>,
    id: Seq<char>,
) -> bool {
    if analyses.dom().contains(id) {
        a == analyses[id]
    } else {
        is_blank(a)
    }
}

/// What is marked on the models of a report.
#[derive(Clone, Copy)]
pub struct Marks<'a> {
    pub config_attributions: Option<&'a StrMap<Vec<ConfigAttribution>>>,
    pub var_references: Option<&'a StrMap<Vec<VarReference>>>,
    pub axes: Option<&'a StrMap<ChangeAxes>>,
    pub model_states: Option<&'a StrMap<ModelState>>,
}

/// `p` carries the marks of the model `id`: the settings and vars that reach
/// it, in which ways it changed with the file of its config, and whether it is
/// new or modified. That a model was removed is no mark: such a model is
/// listed by its path.
pub open spec fn is_marked(p: ModelPayload<'_>, marks: Marks<'_>, id: Seq<char>, model: Node) -> bool {
    let axes = table_or_empty(marks.axes);
    let states = table_or_empty(marks.model_states);
    &&& refers_to_entry(p.config_attributions, table_or_empty(marks.config_attributions), id)
    &&& refers_to_entry(p.var_references, table_or_empty(marks.var_references), id)
    &&& if axes.dom().contains(id) {
        &&& p.axes == Some(
            AxesPayload {
                body: axes[id].body,
                config: axes[id].config,
                unit_test: axes[id].unit_test,
            },
        )
        &&& p.config_file == model.patch_path
    } else {
        p.axes is None && p.config_file is None
    }
    &&& if states.dom().contains(id) && states[id] != ModelState::Removed {
        p.state is Some && p.state->0@ == state_text(states[id])
    } else {
        p.state is None
    }
}

/// `p` shows the model `id` of a report, with its marks.
pub open spec fn shows_scoped_model(
    p: ModelPayload<'_>,
    m: Manifest,
    id: Seq<char>,
    changed: Set<Seq<char>>,
    g: Gathered<'_>,
    marks: Marks<'_>,
    analyses: Map<Seq<char>, ModelAnalysis>,
) -> bool {
    &&& is_marked(p, marks, id, m.nodes@[id])
    &&& exists|a: ModelAnalysis|
        is_analysis_of(a, analyses, id) && #[trigger] shows_model(
            p,
            m,
            m.nodes@[id],
            tests_for(m, id),
            changed,
            g,
            a,
        )
}

/// `models` shows the models `ids` of a report, in order.
pub open spec fn shows_models(
    models: Seq<ModelPayload<'_>>,
    m: Manifest,
    ids: Seq<Seq<char>>,
    changed: Set<Seq<char>>,
    g: Gathered<'_>,
    marks: Marks<'_>,
    analyses: Map<Seq<char>, ModelAnalysis>,
) -> bool {
    &&& models.len() == ids.len()
    &&& forall|i: int|
        0 <= i < models.len() ==> shows_scoped_model(
            #[trigger] models[i],
            m,
            ids[i],
            changed,
            g,
            marks,
            analyses,
        )
}

/// The checks behind a list of findings.
pub open spec fn checks_of(findings: Seq<FindingPayload>) -> Seq<CheckSpec> {
    findings.map_values(|f: FindingPayload| f.finding.check)
}

/// The checks behind the findings of all models, in order.
pub open spec fn all_checks(models: Seq<ModelPayload<'_>>) -> Seq<CheckSpec>
    decreases models.len(),
{
    if models.len() == 0 {
        Seq::empty()
    } else {
        all_checks(models.drop_last()) + checks_of(models.last().findings@)
    }
}

/// The position of the first of `checks` with the id `k`.
pub open spec fn check_index(checks: Seq<CheckSpec>, k: Seq<char>) -> Option<int> {
    first_index(checks, |c: CheckSpec| c.id_str@ == k)
}

/// `map` explains each check among `checks` under its id; of several with the
/// same id the first.
pub open spec fn explains_checks(
    map: Map<Seq<char>, CheckSpecPayload>,
    checks: Seq<CheckSpec>,
) -> bool {
    &&& forall|k: Seq<char>| #[trigger]
        map.dom().contains(k) <==> check_index(checks, k) is Some
    &&& forall|k: Seq<char>| #[trigger]
        map.dom().contains(k) ==> explains(
            map[k],
            checks[check_index(checks, k)->0],
        )
}

/// `r` is the data of a report, before what stands around the models is put
/// in.
pub open spec fn is_base_report(
    r: ReportPayload<'_>,
    m: Manifest,
    changed: Set<Seq<char>>,
    scope: Seq<Seq<char>>,
    g: Gathered<'_>,
    baseline: Seq<char>,
    marks: Marks<'_>,
    analyses: Map<Seq<char>, ModelAnalysis>,
) -> bool {
    &&& r.baseline@ == baseline
    &&& shows_models(r.models@, m, known_ids(m, scope), changed, g, marks, analyses)
    &&& is_lookup(r.manifest_nodes@, m, scope, |id: Seq<char>| tests_for(m, id))
    &&& explains_checks(r.check_specs@, all_checks(r.models@))
}

/// Nothing stands around the models.
pub open spec fn is_bare_report(r: ReportPayload<'_>) -> bool {
    &&& r.governance is None
    &&& r.macro_lens is None
    &&& r.pr_ref is None
    &&& r.seed_cards@.len() == 0
    &&& r.pr_dag is None
    &&& r.removed_models@.len() == 0
    &&& r.pr_comments is None
}

impl Default for ModelAnalysis {
    fn default() -> (r: Self)
        ensures
            is_blank(r),
    {
        ModelAnalysis {
            graph: CteGraph::default(),
            raw_spans: StrMap::new(),
            column_context: StrMap::new(),
            findings: Vec::new(),
        }
    }
}

/// Puts the marks of the model `id` on its payload.
fn mark_model<'a>(payload: ModelPayload<'a>, marks: Marks<'a>, id: &str, model: &Node) -> (r:
    ModelPayload<'a>)
    requires
        unmarked(payload),
    ensures
        is_marked(r, marks, id@, *model),
        r == (ModelPayload {
            config_attributions: r.config_attributions,
            var_references: r.var_references,
            axes: r.axes,
            config_file: r.config_file,
            state: r.state,
            ..payload
        }),
{
    let mut p: ModelPayload<'a> = payload;
    p.config_attributions = get_in(marks.config_attributions, id);
    p.var_references = get_in(marks.var_references, id);
    if let Some(axes) = get_in(marks.axes, id) {
        p.axes = Some(AxesPayload::from(*axes));
        p.config_file = model.patch_path.clone();
    }
    if let Some(state) = get_in(marks.model_states, id) {
        if *state != ModelState::Removed {
            p.state = Some(model_state_wire(*state));
        }
    }
    p
}

/// Adds the checks behind `findings` to `specs`.
fn add_checks(
    specs: &mut StrMap<CheckSpecPayload>,
    findings: &Vec<FindingPayload>,
    checks: Ghost<Seq<CheckSpec>>,
)
    requires
        explains_checks(old(specs)@, checks@),
    ensures
        explains_checks(final(specs)@, checks@ + checks_of(findings@)),
{
    let ghost all = checks_of(findings@);
    let mut i: usize = 0;
    assert(checks@ + all.take(0) == checks@);
    while i < findings.len()
        invariant
            i <= findings@.len(),
            all == checks_of(findings@),
            explains_checks(specs@, checks@ + all.take(i as int)),
        decreases findings@.len() - i,
    {
        let check: CheckSpec = findings[i].finding.check;
        let ghost before = specs@;
        let ghost seen = checks@ + all.take(i as int);
        proof {
            assert(all[i as int] == check);
            assert(checks@ + all.take(i as int + 1) == seen.push(check));
        }
        if !specs.contains_key(check.id_str) {
            specs.insert(check.id_str.to_owned(), check_spec_payload(check));
        }
        proof {
            lemma_one_more_check(before, specs@, seen, check);
        }
        i += 1;
    }
    assert(all.take(i as int) == all);
}

proof fn lemma_first_index_push(s: Seq<CheckSpec>, c: CheckSpec, k: Seq<char>)
    ensures
        check_index(s.push(c), k) == match check_index(s, k) {
            Some(i) => Some(i),
            None => if c.id_str@ == k {
                Some(s.len() as int)
            } else {
                None
            },
        },
{
    assert(s.push(c).drop_last() == s);
}

proof fn lemma_one_more_check(
    before: Map<Seq<char>, CheckSpecPayload>,
    after: Map<Seq<char>, CheckSpecPayload>,
    seen: Seq<CheckSpec>,
    c: CheckSpec,
)
    requires
        explains_checks(before, seen),
        before.dom().contains(c.id_str@) ==> after == before,
        !before.dom().contains(c.id_str@) ==> after.dom() == before.dom().insert(c.id_str@)
            && explains(after[c.id_str@], c) && forall|k: Seq<char>| #[trigger]
            before.dom().contains(k) ==> after[k] == before[k],
    ensures
        explains_checks(after, seen.push(c)),
{
    let all = seen.push(c);
    assert forall|k: Seq<char>| #[trigger]
        after.dom().contains(k) <==> check_index(all, k) is Some by {
        lemma_first_index_push(seen, c, k);
        assert(before.dom().contains(k) <==> check_index(seen, k) is Some);
    }
    assert forall|k: Seq<char>| #[trigger] after.dom().contains(k) implies explains(
        after[k],
        all[check_index(all, k)->0],
    ) by {
        lemma_first_index_push(seen, c, k);
        lemma_first_index(seen, |c: CheckSpec| c.id_str@ == k);
        if before.dom().contains(k) {
            let i = check_index(seen, k)->0;
            assert(all[i] == seen[i]);
            assert(explains(before[k], seen[i]));
        } else {
            assert(k == c.id_str@);
            assert(check_index(seen, k) is None);
        }
    }
}

fn build_check_specs(models: &Vec<ModelPayload<'_>>) -> (r: StrMap<CheckSpecPayload>)
    ensures
        explains_checks(r@, all_checks(models@)),
{
    let mut specs: StrMap<CheckSpecPayload> = StrMap::new();
    let mut i: usize = 0;
    proof {
        assert(models@.take(0) == Seq::<ModelPayload<'_>>::empty());
        assert forall|k: Seq<char>| #[trigger]
            specs@.dom().contains(k) <==> check_index(Seq::<CheckSpec>::empty(), k) is Some by {}
    }
    while i < models.len()
        invariant
            i <= models@.len(),
            explains_checks(specs@, all_checks(models@.take(i as int))),
        decreases models@.len() - i,
    {
        let ghost seen = all_checks(models@.take(i as int));
        add_checks(&mut specs, &models[i].findings, Ghost(seen));
        proof {
            assert(models@.take(i as int + 1).drop_last() == models@.take(i as int));
            assert(models@.take(i as int + 1).last() == models@[i as int]);
        }
        i += 1;
    }
    assert(models@.take(i as int) == models@);
    specs
}

fn build_models<'a>(
    current: &'a Manifest,
    changed: &StrSet,
    models_in_scope: &StrSet,
    model_tests: &StrMap<Vec<TestRef<'a>>>,
    g: Gathered<'a>,
    marks: Marks<'a>,
    analyses: StrMap<ModelAnalysis>,
) -> (r: Vec<ModelPayload<'a>>)
    requires
        is_test_index(model_tests@, *current, models_in_scope@),
    ensures
        shows_models(
            r@,
            *current,
            known_ids(*current, models_in_scope.list()),
            changed@,
            g,
            marks,
            analyses@,
        ),
{
    let ghost list = models_in_scope.list();
    let ghost first = analyses@;
    let ghost known = |id: Seq<char>| current.nodes@.dom().contains(id);
    let none: Vec<TestRef<'a>> = Vec::new();
    let mut rest: StrMap<ModelAnalysis> = analyses;
    let mut models: Vec<ModelPayload<'a>> = Vec::new();
    let n: usize = models_in_scope.len();
    let mut i: usize = 0;
    proof {
        reveal(Seq::filter);
        assert(list.take(0) == Seq::<Seq<char>>::empty());
    }
    while i < n
        invariant
            i <= n == list.len(),
            list == models_in_scope.list(),
            crate::table::texts_ascend(list),
            none@.len() == 0,
            known == (|id: Seq<char>| current.nodes@.dom().contains(id)),
            forall|t: Seq<char>| models_in_scope@.contains(t) <==> list.contains(t),
            is_test_index(model_tests@, *current, models_in_scope@),
            forall|k: int|
                i <= k < n ==> rest@.dom().contains(#[trigger] list[k]) == first.dom().contains(
                    list[k],
                ) && (first.dom().contains(list[k]) ==> rest@[list[k]] == first[list[k]]),
            shows_models(
                models@,
                *current,
                list.take(i as int).filter(known),
                changed@,
                g,
                marks,
                first,
            ),
        decreases n - i,
    {
        let id: &String = models_in_scope.at(i);
        proof {
            reveal(Seq::filter);
            assert(list.take(i as int + 1).drop_last() == list.take(i as int));
            assert(list.take(i as int + 1).last() == id@);
            assert(list[i as int] == id@);
        }
        let ghost before = rest@;
        if let Some(model) = current.nodes.get(id.as_str()) {
            let analysis: ModelAnalysis = match rest.remove(id.as_str()) {
                Some(a) => a,
                None => ModelAnalysis::default(),
            };
            let ghost a = analysis;
            assert(is_analysis_of(a, first, id@));
            let tests: &Vec<TestRef<'a>> = match model_tests.get(id.as_str()) {
                Some(t) => t,
                None => &none,
            };
            assert(test_refs(tests@) =~= tests_for(*current, id@));
            let payload: ModelPayload<'a> = build_model_payload(
                current,
                model,
                tests,
                changed,
                g,
                analysis,
            );
            let marked: ModelPayload<'a> = mark_model(payload, marks, id.as_str(), model);
            proof {
                assert(shows_model(
                    marked,
                    *current,
                    *model,
                    tests_for(*current, id@),
                    changed@,
                    g,
                    a,
                )) by {
                    lemma_marks_keep(
                        payload,
                        marked,
                        *current,
                        *model,
                        tests_for(*current, id@),
                        changed@,
                        g,
                        a,
                    );
                }
                assert(shows_scoped_model(marked, *current, id@, changed@, g, marks, first));
            }
            models.push(marked);
        }
        proof {
            assert forall|k: int| i + 1 <= k < n implies rest@.dom().contains(#[trigger] list[k])
                == first.dom().contains(list[k]) && (first.dom().contains(list[k])
                ==> rest@[list[k]] == first[list[k]]) by {
                crate::order::lemma_lex_irreflexive(crate::order::codes(id@));
                assert(crate::order::text_lt(list[i as int], list[k]));
                assert(list[k] != id@);
                assert(before.dom().contains(list[k]) == first.dom().contains(list[k]));
            }
        }
        i += 1;
    }
    assert(list.take(i as int) == list);
    models
}

proof fn lemma_marks_keep(
    p: ModelPayload<'_>,
    q: ModelPayload<'_>,
    m: Manifest,
    model: Node,
    tests: Seq<(Seq<char>, UnitTest)>,
    changed: Set<Seq<char>>,
    g: Gathered<'_>,
    a: ModelAnalysis,
)
    requires
        shows_model(p, m, model, tests, changed, g, a),
        q == (ModelPayload {
            config_attributions: q.config_attributions,
            var_references: q.var_references,
            axes: q.axes,
            config_file: q.config_file,
            state: q.state,
            ..p
        }),
    ensures
        shows_model(q, m, model, tests, changed, g, a),
{
    assert(shows_code(q, model, a));
}

fn assemble<'a>(
    current: &'a Manifest,
    changed: &StrSet,
    models_in_scope: &StrSet,
    g: Gathered<'a>,
    baseline_label: &str,
    marks: Marks<'a>,
    analyses: StrMap<ModelAnalysis>,
) -> (r: ReportPayload<'a>)
    ensures
        is_base_report(
            r,
            *current,
            changed@,
            models_in_scope.list(),
            g,
            baseline_label@,
            marks,
            analyses@,
        ),
        is_bare_report(r),
        r.project_definition is None,
        r.project_change_panel is None,
{
    let model_tests: StrMap<Vec<TestRef<'a>>> = index_tests_for_models(current, models_in_scope);
    let models: Vec<ModelPayload<'a>> = build_models(
        current,
        changed,
        models_in_scope,
        &model_tests,
        g,
        marks,
        analyses,
    );
    let check_specs: StrMap<CheckSpecPayload> = build_check_specs(&models);
    let manifest_nodes: StrMap<ManifestNodePayload> = build_manifest_nodes(
        current,
        models_in_scope,
        &model_tests,
    );
    proof {
        let indexed = |id: Seq<char>| tests_in(model_tests@, id);
        let all = |id: Seq<char>| tests_for(*current, id);
        let list = models_in_scope.list();
        assert forall|i: int| 0 <= i < list.len() implies indexed(#[trigger] list[i]) == all(
            list[i],
        ) by {
            assert(models_in_scope@.contains(list[i]));
            assert(indexed(list[i]) =~= all(list[i]));
        }
        lemma_mentioned_by_scope(*current, list, indexed, all);
    }
    ReportPayload {
        baseline: baseline_label.to_owned(),
        models,
        manifest_nodes,
        check_specs,
        project_definition: None,
        project_change_panel: None,
        governance: None,
        macro_lens: None,
        pr_ref: None,
        seed_cards: Vec::new(),
        pr_dag: None,
        removed_models: Vec::new(),
        pr_comments: None,
    }
}

/// The data of a report: one payload per model in scope that the manifest
/// has, in the order of the ids; the lookup of the models that the report
/// mentions; and the checks that found something. `analyses` holds what was
/// found out about the code of each model.
pub fn build_payload_with_externals<'a>(
    current: &'a Manifest,
    changed: &StrSet,
    models_in_scope: &StrSet,
    authoring_yaml: &'a StrMap<UnitTestYamlBlock>,
    yaml_diffs: &'a StrMap<BlockDiff>,
    sql_diffs: &'a StrMap<BlockDiff>,
    model_yaml: &'a StrMap<ModelYamlOutcome>,
    data_diffs: &'a StrMap<UnitTestDataDiff>,
    external_fixtures: &'a StrMap<ExternalFixtures>,
    baseline_label: &str,
    analyses: StrMap<ModelAnalysis>,
    project_facts: &'a ProjectFacts,
    axes: &'a StrMap<ChangeAxes>,
    model_states: &'a StrMap<ModelState>,
) -> (r: ReportPayload<'a>)
    ensures
        is_base_report(
            r,
            *current,
            changed@,
            models_in_scope.list(),
            (Gathered {
                authoring_yaml,
                yaml_diffs,
                sql_diffs,
                model_yaml,
                data_diffs,
                external_fixtures: Some(external_fixtures),
            }),
            baseline_label@,
            (Marks {
                config_attributions: Some(&project_facts.config_attributions),
                var_references: Some(&project_facts.var_references),
                axes: Some(axes),
                model_states: Some(model_states),
            }),
            analyses@,
        ),
        is_bare_report(r),
        crate::unit_tests::refers(r.project_definition, project_facts.definition),
        crate::unit_tests::refers(r.project_change_panel, project_facts.panel),
{
    let g: Gathered<'a> = Gathered {
        authoring_yaml,
        yaml_diffs,
        sql_diffs,
        model_yaml,
        data_diffs,
        external_fixtures: Some(external_fixtures),
    };
    let marks: Marks<'a> = Marks {
        config_attributions: Some(&project_facts.config_attributions),
        var_references: Some(&project_facts.var_references),
        axes: Some(axes),
        model_states: Some(model_states),
    };
    let mut r: ReportPayload<'a> = assemble(
        current,
        changed,
        models_in_scope,
        g,
        baseline_label,
        marks,
        analyses,
    );
    r.project_definition = project_facts.definition.as_ref();
    r.project_change_panel = project_facts.panel.as_ref();
    r
}

/// The data of a report without loaded fixtures, without facts on the project
/// file and without marks on the models.
pub fn build_payload<'a>(
    current: &'a Manifest,
    changed: &StrSet,
    models_in_scope: &StrSet,
    authoring_yaml: &'a StrMap<UnitTestYamlBlock>,
    yaml_diffs: &'a StrMap<BlockDiff>,
    sql_diffs: &'a StrMap<BlockDiff>,
    model_yaml: &'a StrMap<ModelYamlOutcome>,
    data_diffs: &'a StrMap<UnitTestDataDiff>,
    baseline_label: &str,
    analyses: StrMap<ModelAnalysis>,
) -> (r: ReportPayload<'a>)
    ensures
        is_base_report(
            r,
            *current,
            changed@,
            models_in_scope.list(),
            (Gathered {
                authoring_yaml,
                yaml_diffs,
                sql_diffs,
                model_yaml,
                data_diffs,
                external_fixtures: None,
            }),
            baseline_label@,
            (Marks {
                config_attributions: None,
                var_references: None,
                axes: None,
                model_states: None,
            }),
            analyses@,
        ),
        is_bare_report(r),
        r.project_definition is None,
        r.project_change_panel is None,
{
    let g: Gathered<'a> = Gathered {
        authoring_yaml,
        yaml_diffs,
        sql_diffs,
        model_yaml,
        data_diffs,
        external_fixtures: None,
    };
    let marks: Marks<'a> = Marks {
        config_attributions: None,
        var_references: None,
        axes: None,
        model_states: None,
    };
    assemble(current, changed, models_in_scope, g, baseline_label, marks, analyses)
}

// ---------------------------------------------------------------------
// What stands around the models
// ---------------------------------------------------------------------

/// A report, ready to be written out.
#[derive(Debug, PartialEq)]
pub struct ReportView<'a> {
    pub payload: ReportPayload<'a>,
    pub banner_text: String,
    pub is_pr_diff: bool,
    /// The pull request, for a report on one.
    pub pr_ref: Option<&'a PrRef>,
    pub project_panel: Option<ProjectPanelView>,
    /// Whether the report shows anything of the project file: its panel, or a
    /// mark on one of its models.
    pub has_project_state: bool,
    /// Whether anything of owners and contracts is to be seen on the page.
    pub has_governance: bool,
}

/// What stands around the models of a report.
#[derive(Debug, PartialEq)]
pub struct Surroundings<'a> {
    /// What is known of owners and contracts, where there is anything.
    pub governance: Option<serde_json::Value>,
    /// Whether any of that is to be seen on the page.
    pub governance_visible: bool,
    pub macro_lens: Option<MacroLensPayload>,
    pub pr_ref: Option<&'a PrRef>,
    pub seed_cards: Vec<SeedCard>,
    pub seed_row_cap: usize,
    pub pr_dag: Option<PrDagPayload>,
    pub removed_models: Vec<String>,
    pub pr_comments: Option<serde_json::Value>,
}

/// The pull request that a report shows: only one whose scope comes from a
/// pull request shows it.
pub open spec fn shown_pr<'a>(pr_ref: Option<&'a PrRef>, scope_source: ScopeSource) -> Option<
    &'a PrRef,
> {
    if scope_source == ScopeSource::PrDiff {
        pr_ref
    } else {
        None
    }
}

/// A model carries a mark that comes from the project file: a setting that
/// reaches it, or a var that it reads.
pub open spec fn has_project_mark(p: ModelPayload<'_>) -> bool {
    ||| p.config_attributions is Some && p.config_attributions->0@.len() > 0
    ||| p.var_references is Some && p.var_references->0@.len() > 0
}

/// One of the models carries a mark that comes from the project file.
pub open spec fn any_project_mark(models: Seq<ModelPayload<'_>>) -> bool {
    exists|i: int| 0 <= i < models.len() && has_project_mark(#[trigger] models[i])
}

/// Whether one of the models carries a mark that comes from the project file.
fn marks_project(models: &Vec<ModelPayload<'_>>) -> (r: bool)
    ensures
        r == any_project_mark(models@),
{
    let mut i: usize = 0;
    while i < models.len()
        invariant
            i <= models@.len(),
            forall|j: int| 0 <= j < i ==> !has_project_mark(#[trigger] models@[j]),
        decreases models@.len() - i,
    {
        let by_config: bool = match models[i].config_attributions {
            Some(v) => v.len() > 0,
            None => false,
        };
        let by_var: bool = match models[i].var_references {
            Some(v) => v.len() > 0,
            None => false,
        };
        if by_config || by_var {
            assert(has_project_mark(models@[i as int]));
            return true;
        }
        i += 1;
    }
    false
}

/// `v` is `payload` with what stands around it: the models, the lookup and
/// the checks as they were, the rest put in.
pub open spec fn is_composed(
    v: ReportView<'_>,
    m: Manifest,
    payload: ReportPayload<'_>,
    scope_len: nat,
    scope_source: ScopeSource,
    facts: ProjectFacts,
    s: Surroundings<'_>,
) -> bool {
    let pr = shown_pr(s.pr_ref, scope_source);
    &&& v.payload.baseline == payload.baseline
    &&& v.payload.models == payload.models
    &&& v.payload.manifest_nodes == payload.manifest_nodes
    &&& v.payload.check_specs == payload.check_specs
    &&& v.payload.project_definition == payload.project_definition
    &&& v.payload.project_change_panel == payload.project_change_panel
    &&& v.payload.governance == s.governance
    &&& v.payload.macro_lens == s.macro_lens
    &&& v.payload.pr_ref == match pr {
        Some(p) => Some(PrRefPayload { number: p.number, title: p.title, url: p.url }),
        None => None,
    }
    &&& shows_seeds(v.payload.seed_cards@, s.seed_cards@, s.seed_row_cap)
    &&& v.payload.pr_dag == s.pr_dag
    &&& v.payload.removed_models == s.removed_models
    &&& v.payload.pr_comments == s.pr_comments
    &&& v.banner_text@ == banner(scope_len)
    &&& v.is_pr_diff == (scope_source == ScopeSource::PrDiff)
    &&& v.pr_ref == pr
    &&& v.project_panel is Some <==> facts.panel is Some
    &&& v.project_panel is Some ==> shows_panel(
        v.project_panel->0,
        m,
        facts.panel->0,
        facts.config_attributions@,
    )
    &&& v.has_project_state == (facts.panel is Some || any_project_mark(payload.models@))
    &&& v.has_governance == s.governance_visible
}

/// A report, ready to be written out: `payload` with what stands around the
/// models. The pull request is shown only where the scope comes from one.
pub fn compose_report<'a>(
    current: &Manifest,
    payload: ReportPayload<'a>,
    in_scope: &StrSet,
    scope_source: ScopeSource,
    project_facts: &ProjectFacts,
    surroundings: Surroundings<'a>,
) -> (r: ReportView<'a>)
    ensures
        is_composed(
            r,
            *current,
            payload,
            in_scope.list().len(),
            scope_source,
            *project_facts,
            surroundings,
        ),
{
    let Surroundings {
        governance,
        governance_visible,
        macro_lens,
        pr_ref,
        seed_cards,
        seed_row_cap,
        pr_dag,
        removed_models,
        pr_comments,
    } = surroundings;
    let is_pr_diff: bool = scope_source == ScopeSource::PrDiff;
    let pr: Option<&'a PrRef> = if is_pr_diff {
        pr_ref
    } else {
        None
    };
    let mut p: ReportPayload<'a> = payload;
    p.governance = governance;
    p.macro_lens = macro_lens;
    p.pr_ref = match pr {
        Some(x) => Some(PrRefPayload::from(x)),
        None => None,
    };
    p.seed_cards = build_seed_section(seed_cards, seed_row_cap);
    p.pr_dag = pr_dag;
    p.removed_models = removed_models;
    p.pr_comments = pr_comments;
    let project_panel: Option<ProjectPanelView> = match &project_facts.panel {
        Some(panel) => Some(
            project_panel_view(current, panel, &project_facts.config_attributions),
        ),
        None => None,
    };
    let has_project_state: bool = project_facts.panel.is_some() || marks_project(&p.models);
    ReportView {
        payload: p,
        banner_text: compose_banner_text(in_scope),
        is_pr_diff,
        pr_ref: pr,
        project_panel,
        has_project_state,
        has_governance: governance_visible,
    }
}

/// Law: a report whose scope comes from a baseline shows no pull request.
pub proof fn law_baseline_shows_no_pr(
    v: ReportView<'_>,
    m: Manifest,
    payload: ReportPayload<'_>,
    scope_len: nat,
    facts: ProjectFacts,
    s: Surroundings<'_>,
)
    requires
        is_composed(v, m, payload, scope_len, ScopeSource::Baseline, facts, s),
    ensures
        v.pr_ref is None,
        v.payload.pr_ref is None,
        !v.is_pr_diff,
{
}

/// Law: a model in scope is shown once where the manifest has it and not at
/// all where it has not; its unit tests are shown whether they are in scope
/// or not.
pub proof fn law_models_once(
    models: Seq<ModelPayload<'_>>,
    m: Manifest,
    scope: Seq<Seq<char>>,
    changed: Set<Seq<char>>,
    g: Gathered<'_>,
    marks: Marks<'_>,
    analyses: Map<Seq<char>, ModelAnalysis>,
)
    requires
        shows_models(models, m, known_ids(m, scope), changed, g, marks, analyses),
        crate::table::texts_ascend(scope),
    ensures
        forall|id: Seq<char>|
            known_ids(m, scope).contains(id) <==> scope.contains(id) && m.nodes@.dom().contains(id),
        known_ids(m, scope).no_duplicates(),
        models.len() == known_ids(m, scope).len(),
        forall|i: int|
            0 <= i < models.len() ==> (#[trigger] models[i]).tests@.len() == tests_for(
                m,
                known_ids(m, scope)[i],
            ).len(),
{
    let known = |id: Seq<char>| m.nodes@.dom().contains(id);
    assert forall|id: Seq<char>|
        known_ids(m, scope).contains(id) <==> scope.contains(id) && m.nodes@.dom().contains(id) by {
        if known_ids(m, scope).contains(id) {
            let k = choose|k: int| 0 <= k < known_ids(m, scope).len() && known_ids(m, scope)[k] == id;
            scope.lemma_filter_pred(known, k);
            scope.lemma_filter_contains_rev(known, id);
        }
        if scope.contains(id) && known(id) {
            let k = choose|k: int| 0 <= k < scope.len() && scope[k] == id;
            scope.lemma_filter_contains(known, k);
        }
    }
    lemma_known_distinct(scope, known);
    assert forall|i: int| 0 <= i < models.len() implies (#[trigger] models[i]).tests@.len()
        == tests_for(m, known_ids(m, scope)[i]).len() by {
        assert(shows_scoped_model(
            models[i],
            m,
            known_ids(m, scope)[i],
            changed,
            g,
            marks,
            analyses,
        ));
    }
}

proof fn lemma_known_distinct(scope: Seq<Seq<char>>, p: spec_fn(Seq<char>) -> bool)
    requires
        crate::table::texts_ascend(scope),
    ensures
        scope.filter(p).no_duplicates(),
    decreases scope.len(),
{
    reveal(Seq::filter);
    if scope.len() > 0 {
        let d = scope.drop_last();
        assert(crate::table::texts_ascend(d)) by {
            assert forall|i: int, j: int| 0 <= i < j < d.len() implies crate::order::text_lt(
                #[trigger] d[i],
                #[trigger] d[j],
            ) by {
                assert(crate::order::text_lt(scope[i], scope[j]));
            }
        }
        lemma_known_distinct(d, p);
        let f = d.filter(p);
        if p(scope.last()) && f.contains(scope.last()) {
            d.lemma_filter_contains_rev(p, scope.last());
            let k = choose|k: int| 0 <= k < d.len() && d[k] == scope.last();
            assert(crate::order::text_lt(scope[k], scope[scope.len() - 1]));
            crate::order::lemma_lex_irreflexive(crate::order::codes(scope.last()));
        }
    }
}

// ---------------------------------------------------------------------
// Laws on what a report shows
// ---------------------------------------------------------------------

/// Law: an entry that was found is shown with its file, its lines and its
/// diff, and nothing is said to be missing. Else no lines are shown, the file
/// is named where there is one, and what is missing is said in words.
pub proof fn law_yaml_shown(p: ModelYamlPayload<'_>, o: ModelYamlOutcome, name: Seq<char>)
    requires
        shows_yaml(p, o, name),
    ensures
        o matches ModelYamlOutcome::Found { path, block, diff } ==> opt_text(p.path) == Some(path@)
            && p.raw == Some(block.raw) && p.missing is None && (p.diff is Some <==> diff is Some)
            && (p.diff matches Some(d) ==> diff == Some(*d)),
        !(o is Found) ==> p.raw is None && p.diff is None && p.missing is Some,
        o is NoPatchPath ==> p.path is None && p.missing->0@
            == "No schema file declares this model in the manifest — there is no authored models: entry to show."@,
        o matches ModelYamlOutcome::NoProjectRoot { path } ==> opt_text(p.path) == Some(path@)
            && p.missing->0@ == "Schema file "@ + path@
            + " was not read — re-run with --project-root to surface the authored model YAML."@,
        o matches ModelYamlOutcome::FileMissing { path } ==> opt_text(p.path) == Some(path@)
            && p.missing->0@ == "Schema file "@ + path@
            + " was not found under the project root."@,
        o matches ModelYamlOutcome::Unreadable { path } ==> opt_text(p.path) == Some(path@)
            && p.missing->0@ == "Schema file "@ + path@ + " could not be read."@,
        o matches ModelYamlOutcome::EntryNotFound { path } ==> opt_text(p.path) == Some(path@)
            && p.missing->0@ == "No models: entry named \""@ + name + "\" was found in "@ + path@
            + "."@,
{
}

/// Law: the names of the states, and the banner: it counts the unit tests in
/// scope, one of them in the singular, and says so where there is none.
pub proof fn law_words(n: nat)
    ensures
        state_text(ModelState::New) == "new"@,
        state_text(ModelState::Modified) == "modified"@,
        state_text(ModelState::Removed) == "removed"@,
        banner(0) == "0 unit tests in scope"@,
        banner(1) == "Showing "@ + decimal(1) + " unit test"@ + " in scope"@,
        n > 1 ==> banner(n) == "Showing "@ + decimal(n) + " unit tests"@ + " in scope"@,
{
}

/// Law: what was gathered for a unit test is what was gathered under its id.
pub proof fn law_extras(g: Gathered<'_>, id: Seq<char>)
    ensures
        ({
            let x = extras_of(g, id);
            &&& x.authoring_yaml is Some <==> g.authoring_yaml@.dom().contains(id)
            &&& x.authoring_yaml matches Some(v) ==> *v == g.authoring_yaml@[id]
            &&& x.yaml_diff is Some <==> g.yaml_diffs@.dom().contains(id)
            &&& x.yaml_diff matches Some(v) ==> *v == g.yaml_diffs@[id]
            &&& x.data_diff is Some <==> g.data_diffs@.dom().contains(id)
            &&& x.data_diff matches Some(v) ==> *v == g.data_diffs@[id]
            &&& x.external is Some <==> g.external_fixtures is Some
                && g.external_fixtures->0@.dom().contains(id)
            &&& x.external matches Some(v) ==> *v == g.external_fixtures->0@[id]
        }),
{
}

/// Law: a model is shown by its bare name, with its file, its description and
/// whether it is incremental; with the diff of its SQL and its YAML entry, each
/// as gathered under its id; and with each of its unit tests, in order.
pub proof fn law_model_shown(
    p: ModelPayload<'_>,
    m: Manifest,
    model: Node,
    tests: Seq<(Seq<char>, UnitTest)>,
    changed: Set<Seq<char>>,
    g: Gathered<'_>,
    a: ModelAnalysis,
    i: int,
)
    requires
        shows_model(p, m, model, tests, changed, g, a),
    ensures
        p.name@ == model.ref_name(),
        p.path == model.original_file_path,
        p.description == model.description,
        p.is_incremental <==> model.materialized is Some && model.materialized->0@
            == "incremental"@,
        p.sql_diff is Some <==> g.sql_diffs@.dom().contains(model.id@),
        p.sql_diff matches Some(d) ==> *d == g.sql_diffs@[model.id@],
        p.model_yaml is Some <==> g.model_yaml@.dom().contains(model.id@),
        p.model_yaml is Some ==> shows_yaml(
            p.model_yaml->0,
            g.model_yaml@[model.id@],
            model.ref_name(),
        ),
        p.tests@.len() == tests.len(),
        0 <= i < tests.len() ==> exists|target: Map<Seq<char>, ColumnMetaPayload>| #[trigger]
            is_column_meta(target, model.column_descriptions@, column_tests(m, model.id@))
                && shows_test(
                p.tests@[i],
                tests[i].0,
                tests[i].1,
                a.graph,
                changed,
                extras_of(g, tests[i].0),
                m,
                target,
            ),
{
    if 0 <= i < tests.len() {
        assert(shows_model_test(p.tests@[i], tests[i], a.graph, changed, g, m, model));
    }
}

/// Law: the code of a model is shown with its graph, its raw code where that is
/// not empty, and its findings; with the lineage of its columns where there is
/// any; and with a code map and the texts of its nodes, both from one source
/// map, where it has compiled code.
pub proof fn law_code_shown(p: ModelPayload<'_>, model: Node, a: ModelAnalysis)
    requires
        shows_code(p, model, a),
    ensures
        draws_nodes(p.dag.nodes@, a.graph, model.ref_name()),
        draws_edges(p.dag.edges@, a.graph),
        p.is_recursive == a.graph.is_recursive,
        p.raw_sql is Some <==> model.raw_code is Some && model.raw_code->0@.len() > 0,
        p.raw_sql is Some ==> p.raw_sql->0@ == model.raw_code->0@,
        p.code_map is Some <==> model.compiled_code is Some && model.compiled_code->0@.len() > 0,
        p.code_map is None ==> p.compiled_sql@ == Map::<Seq<char>, String>::empty(),
        p.code_map is Some ==> exists|sm: SourceMap| #[trigger]
            is_model_map(sm, model, a) && p.code_map->0.projects(sm) && slices_of(
                p.compiled_sql@,
                sm,
            ),
        p.column_lineage is None <==> a.column_context.entries().len() == 0
            && a.graph.column_edges@.len() == 0,
        p.column_lineage matches Some(l) ==> l.context == a.column_context && l.edges
            == a.graph.column_edges,
        p.findings@.len() == a.findings@.len(),
        forall|i: int|
            0 <= i < p.findings@.len() ==> shows_finding(
                #[trigger] p.findings@[i],
                a.findings@[i],
                a.graph,
            ),
{
    reveal_strlit("");
}

/// Law: the source map of a model is that of its graph over its compiled code,
/// with an entry for each zone of its raw code behind, and with the raw spans
/// that were located; without raw code it is that of the graph.
pub proof fn law_model_map(
    sm: SourceMap,
    model: Node,
    a: ModelAnalysis,
    compiled: Seq<char>,
)
    requires
        is_model_map(sm, model, a),
        model.compiled_code matches Some(s) ==> compiled == s@,
        model.compiled_code is None ==> compiled.len() == 0,
    ensures
        exists|base: SourceMap|
            {
                &&& #[trigger] is_graph_map(base, a.graph, compiled, "(final select)"@)
                &&& sm.compiled@ == compiled
                &&& model.raw_code is None || model.raw_code->0@.len() == 0 ==> sm.entries@
                    == base.entries@
                &&& model.raw_code is Some && model.raw_code->0@.len() > 0 ==> {
                    let raw = vstd::utf8::encode_utf8(model.raw_code->0@);
                    let zones = text_zones(raw);
                    let n = base.entries@.len();
                    &&& sm.entries@.len() == n + zones.len()
                    &&& forall|i: int|
                        0 <= i < n ==> #[trigger] sm.entries@[i] == with_raw(
                            base.entries@[i],
                            a.raw_spans@,
                        )
                    &&& forall|i: int|
                        n <= i < n + zones.len() ==> #[trigger] sm.entries@[i] == with_raw(
                            zone_entry(raw, zones[i - n], vstd::utf8::encode_utf8(compiled)),
                            a.raw_spans@,
                        )
                }
            },
{
    assert(compiled =~= compiled_of(model));
    let base = choose|base: SourceMap| #[trigger]
        is_graph_map(base, a.graph, compiled_of(model), TERMINAL_NODE_NAME@) && sm.compiled
            == base.compiled && sm.entries@ == completed(base.entries@, model, a.raw_spans@);
    assert(is_graph_map(base, a.graph, compiled_of(model), "(final select)"@));
}

/// Law: a model carries the settings and the vars that reach it, its axes of
/// change with the file of its config, and its state, each exactly where the
/// marks have them under its id; that it was removed is no state of it.
pub proof fn law_marks(p: ModelPayload<'_>, marks: Marks<'_>, id: Seq<char>, model: Node)
    requires
        is_marked(p, marks, id, model),
    ensures
        p.config_attributions is Some <==> marks.config_attributions is Some
            && marks.config_attributions->0@.dom().contains(id),
        p.config_attributions matches Some(v) ==> *v == marks.config_attributions->0@[id],
        p.var_references is Some <==> marks.var_references is Some
            && marks.var_references->0@.dom().contains(id),
        p.var_references matches Some(v) ==> *v == marks.var_references->0@[id],
        p.axes is Some <==> marks.axes is Some && marks.axes->0@.dom().contains(id),
        p.axes matches Some(x) ==> x.body == marks.axes->0@[id].body && x.config
            == marks.axes->0@[id].config && x.unit_test == marks.axes->0@[id].unit_test
            && p.config_file == model.patch_path,
        p.axes is None ==> p.config_file is None,
        p.state is Some <==> marks.model_states is Some && marks.model_states->0@.dom().contains(id)
            && marks.model_states->0@[id] != ModelState::Removed,
        p.state matches Some(s) ==> s@ == state_text(marks.model_states->0@[id]),
{
}

/// Law: a report shows the models in scope that the manifest has, in order,
/// each with its own node, tests, analysis and marks; the lookup of the models
/// that it mentions; and its baseline.
pub proof fn law_report_shown(
    r: ReportPayload<'_>,
    m: Manifest,
    changed: Set<Seq<char>>,
    scope: Seq<Seq<char>>,
    g: Gathered<'_>,
    baseline: Seq<char>,
    marks: Marks<'_>,
    analyses: Map<Seq<char>, ModelAnalysis>,
    i: int,
)
    requires
        is_base_report(r, m, changed, scope, g, baseline, marks, analyses),
    ensures
        r.baseline@ == baseline,
        ({
            let ids = scope.filter(|id: Seq<char>| m.nodes@.dom().contains(id));
            &&& r.models@.len() == ids.len()
            &&& 0 <= i < ids.len() ==> {
                let n = m.nodes@[ids[i]];
                let tests = tests_for(m, ids[i]);
                let known = analyses.dom().contains(ids[i]);
                &&& is_marked(r.models@[i], marks, ids[i], n)
                &&& known ==> shows_model(
                    r.models@[i],
                    m,
                    n,
                    tests,
                    changed,
                    g,
                    analyses[ids[i]],
                )
                &&& !known ==> exists|a: ModelAnalysis| #[trigger]
                    is_blank(a) && shows_model(r.models@[i], m, n, tests, changed, g, a)
            }
        }),
        is_lookup(r.manifest_nodes@, m, scope, |id: Seq<char>| tests_for(m, id)),
{
    let ids = known_ids(m, scope);
    if 0 <= i < ids.len() {
        assert(shows_scoped_model(r.models@[i], m, ids[i], changed, g, marks, analyses));
        let a = choose|a: ModelAnalysis|
            is_analysis_of(a, analyses, ids[i]) && #[trigger] shows_model(
                r.models@[i],
                m,
                m.nodes@[ids[i]],
                tests_for(m, ids[i]),
                changed,
                g,
                a,
            );
        if !analyses.dom().contains(ids[i]) {
            assert(is_blank(a));
        }
    }
}

/// Law: a blank analysis has an empty graph and nothing else.
pub proof fn law_blank(a: ModelAnalysis)
    requires
        is_blank(a),
    ensures
        a.graph.nodes@.len() == 0,
        a.graph.edges@.len() == 0,
        !a.graph.is_recursive,
        a.graph.column_edges@.len() == 0,
        a.graph.column_spans@.len() == 0,
        a.raw_spans@ == Map::<Seq<char>, SourceSpan>::empty(),
        a.column_context.entries().len() == 0,
        a.findings@.len() == 0,
{
}

proof fn lemma_all_checks(models: Seq<ModelPayload<'_>>, c: CheckSpec)
    ensures
        all_checks(models).contains(c) <==> exists|i: int, j: int|
            0 <= i < models.len() && 0 <= j < models[i].findings@.len() && (
            #[trigger] models[i].findings@[j]).finding.check == c,
    decreases models.len(),
{
    if models.len() > 0 {
        let d = models.drop_last();
        let last = models.last().findings@;
        let head = all_checks(d);
        let tail = checks_of(last);
        let all = all_checks(models);
        lemma_all_checks(d, c);
        assert(models[models.len() - 1] == models.last());
        if all.contains(c) {
            let x = choose|x: int| 0 <= x < all.len() && all[x] == c;
            if x < head.len() {
                assert(head[x] == c);
                assert(head.contains(c));
                let (i, j) = choose|i: int, j: int|
                    0 <= i < d.len() && 0 <= j < d[i].findings@.len() && (
                    #[trigger] d[i].findings@[j]).finding.check == c;
                assert(models[i] == d[i]);
                assert(models[i].findings@[j].finding.check == c);
            } else {
                assert(tail[x - head.len()] == c);
                assert(models[models.len() - 1].findings@[x - head.len()].finding.check == c);
            }
        }
        if exists|i: int, j: int|
            0 <= i < models.len() && 0 <= j < models[i].findings@.len() && (
            #[trigger] models[i].findings@[j]).finding.check == c {
            let (i, j) = choose|i: int, j: int|
                0 <= i < models.len() && 0 <= j < models[i].findings@.len() && (
                #[trigger] models[i].findings@[j]).finding.check == c;
            if i < d.len() {
                assert(d[i] == models[i]);
                assert(d[i].findings@[j].finding.check == c);
                assert(head.contains(c));
                let x = choose|x: int| 0 <= x < head.len() && head[x] == c;
                assert(all[x] == c);
            } else {
                assert(tail[j] == c);
                assert(all[head.len() + j] == c);
            }
        }
    }
}

proof fn lemma_check_index(checks: Seq<CheckSpec>, k: Seq<char>)
    ensures
        match check_index(checks, k) {
            Some(x) => 0 <= x < checks.len() && checks[x].id_str@ == k && forall|y: int|
                0 <= y < x ==> (#[trigger] checks[y]).id_str@ != k,
            None => forall|y: int| 0 <= y < checks.len() ==> (#[trigger] checks[y]).id_str@ != k,
        },
    decreases checks.len(),
{
    if checks.len() > 0 {
        let d = checks.drop_last();
        lemma_check_index(d, k);
        lemma_first_index_push(d, checks.last(), k);
        assert(checks == d.push(checks.last()));
        assert forall|y: int| 0 <= y < d.len() implies #[trigger] checks[y] == d[y] by {}
    }
}

proof fn lemma_first_check(models: Seq<ModelPayload<'_>>, i: int, j: int, k: Seq<char>)
    requires
        0 <= i < models.len(),
        0 <= j < models[i].findings@.len(),
        models[i].findings@[j].finding.check.id_str@ == k,
        forall|x: int, y: int|
            0 <= x < models.len() && 0 <= y < models[x].findings@.len() && (x < i || x == i && y
                < j) ==> (#[trigger] models[x].findings@[y]).finding.check.id_str@ != k,
    ensures
        check_index(all_checks(models), k) is Some,
        all_checks(models)[check_index(all_checks(models), k)->0]
            == models[i].findings@[j].finding.check,
    decreases models.len(),
{
    let d = models.drop_last();
    let head = all_checks(d);
    let tail = checks_of(models.last().findings@);
    let all = all_checks(models);
    let c = models[i].findings@[j].finding.check;
    assert(all == head + tail);
    lemma_check_index(all, k);
    if i < d.len() {
        assert(d[i] == models[i]);
        assert forall|x: int, y: int|
            0 <= x < d.len() && 0 <= y < d[x].findings@.len() && (x < i || x == i && y
                < j) implies (#[trigger] d[x].findings@[y]).finding.check.id_str@ != k by {
            assert(d[x] == models[x]);
            assert(models[x].findings@[y].finding.check.id_str@ != k);
        }
        lemma_first_check(d, i, j, k);
        lemma_check_index(head, k);
        let x = check_index(head, k)->0;
        assert(all[x] == head[x]);
        let z = check_index(all, k)->0;
        if z < x {
            assert(all[z] == head[z]);
        }
    } else {
        assert(models.last() == models[i]);
        assert forall|x: int| 0 <= x < head.len() implies (#[trigger] head[x]).id_str@ != k by {
            let h = head[x];
            lemma_all_checks(d, h);
            assert(head.contains(h));
            let (u, v) = choose|u: int, v: int|
                0 <= u < d.len() && 0 <= v < d[u].findings@.len() && (
                #[trigger] d[u].findings@[v]).finding.check == h;
            assert(d[u] == models[u]);
            assert(models[u].findings@[v].finding.check.id_str@ != k);
        }
        assert(all[head.len() + j] == tail[j]);
        assert(tail[j] == c);
        let z = check_index(all, k)->0;
        if z < head.len() {
            assert(all[z] == head[z]);
        } else {
            assert(all[z] == tail[z - head.len()]);
            assert(tail[z - head.len()] == models[i].findings@[z - head.len()].finding.check);
        }
    }
}

/// Law: a report explains exactly the checks behind the findings of its
/// models: for each finding there is an entry under the id of its check, and
/// every entry explains a check with its id that is behind a finding. Of
/// several such checks it explains the one behind the first finding.
pub proof fn law_checks_explained(
    map: Map<Seq<char>, CheckSpecPayload>,
    models: Seq<ModelPayload<'_>>,
    k: Seq<char>,
)
    requires
        explains_checks(map, all_checks(models)),
    ensures
        map.dom().contains(k) <==> exists|i: int, j: int|
            0 <= i < models.len() && 0 <= j < models[i].findings@.len() && (
            #[trigger] models[i].findings@[j]).finding.check.id_str@ == k,
        forall|i: int, j: int|
            0 <= i < models.len() && 0 <= j < models[i].findings@.len() && (
            #[trigger] models[i].findings@[j]).finding.check.id_str@ == k && (forall|x: int, y: int|
                0 <= x < models.len() && 0 <= y < models[x].findings@.len() && (x < i || x == i && y
                    < j) ==> (#[trigger] models[x].findings@[y]).finding.check.id_str@ != k)
                ==> explains(map[k], models[i].findings@[j].finding.check),
{
    let checks = all_checks(models);
    lemma_check_index(checks, k);
    if exists|i: int, j: int|
        0 <= i < models.len() && 0 <= j < models[i].findings@.len() && (
        #[trigger] models[i].findings@[j]).finding.check.id_str@ == k {
        let (i, j) = choose|i: int, j: int|
            0 <= i < models.len() && 0 <= j < models[i].findings@.len() && (
            #[trigger] models[i].findings@[j]).finding.check.id_str@ == k;
        let c = models[i].findings@[j].finding.check;
        lemma_all_checks(models, c);
        assert(checks.contains(c));
        let x = choose|x: int| 0 <= x < checks.len() && checks[x] == c;
        assert(checks[x].id_str@ == k);
        assert(check_index(checks, k) is Some);
    }
    if map.dom().contains(k) {
        let c = checks[check_index(checks, k)->0];
        assert(checks.contains(c));
        lemma_all_checks(models, c);
        let (i, j) = choose|i: int, j: int|
            0 <= i < models.len() && 0 <= j < models[i].findings@.len() && (
            #[trigger] models[i].findings@[j]).finding.check == c;
        assert(models[i].findings@[j].finding.check.id_str@ == k);
    }
    assert forall|i: int, j: int|
        0 <= i < models.len() && 0 <= j < models[i].findings@.len() && (
        #[trigger] models[i].findings@[j]).finding.check.id_str@ == k && (forall|x: int, y: int|
            0 <= x < models.len() && 0 <= y < models[x].findings@.len() && (x < i || x == i && y
                < j) ==> (#[trigger] models[x].findings@[y]).finding.check.id_str@
                != k) implies explains(map[k], models[i].findings@[j].finding.check) by {
        lemma_first_check(models, i, j, k);
        assert(map.dom().contains(k));
    }
}

/// Law: what stands around the models is put in as it was given: governance,
/// macro lens, seeds, graph of the pull request, removed models and comments;
/// the models and the rest of the data stay. The pull request is shown in a
/// report on one and in no other. The banner counts the tests in scope.
pub proof fn law_composed(
    v: ReportView<'_>,
    m: Manifest,
    payload: ReportPayload<'_>,
    scope_len: nat,
    source: ScopeSource,
    facts: ProjectFacts,
    s: Surroundings<'_>,
)
    requires
        is_composed(v, m, payload, scope_len, source, facts, s),
    ensures
        v.payload.baseline == payload.baseline,
        v.payload.models == payload.models,
        v.payload.manifest_nodes == payload.manifest_nodes,
        v.payload.check_specs == payload.check_specs,
        v.payload.project_definition == payload.project_definition,
        v.payload.project_change_panel == payload.project_change_panel,
        v.payload.governance == s.governance,
        v.has_governance == s.governance_visible,
        v.payload.macro_lens == s.macro_lens,
        v.payload.pr_dag == s.pr_dag,
        v.payload.removed_models == s.removed_models,
        v.payload.pr_comments == s.pr_comments,
        shows_seeds(v.payload.seed_cards@, s.seed_cards@, s.seed_row_cap),
        v.banner_text@ == banner(scope_len),
        v.is_pr_diff <==> source == ScopeSource::PrDiff,
        source == ScopeSource::PrDiff ==> v.pr_ref == s.pr_ref,
        source != ScopeSource::PrDiff ==> v.pr_ref is None,
        v.payload.pr_ref is Some <==> v.pr_ref is Some,
        v.pr_ref matches Some(x) ==> v.payload.pr_ref->0.number == x.number
            && v.payload.pr_ref->0.title == x.title && v.payload.pr_ref->0.url == x.url,
        v.project_panel is Some <==> facts.panel is Some,
        v.project_panel is Some ==> shows_panel(
            v.project_panel->0,
            m,
            facts.panel->0,
            facts.config_attributions@,
        ),
        v.has_project_state <==> facts.panel is Some || exists|i: int|
            0 <= i < payload.models@.len() && ((#[trigger] payload.models@[i]).config_attributions
                is Some && payload.models@[i].config_attributions->0@.len() > 0
                || payload.models@[i].var_references is Some
                && payload.models@[i].var_references->0@.len() > 0),
{
    if exists|i: int|
        0 <= i < payload.models@.len() && ((#[trigger] payload.models@[i]).config_attributions
            is Some && payload.models@[i].config_attributions->0@.len() > 0
            || payload.models@[i].var_references is Some
            && payload.models@[i].var_references->0@.len() > 0) {
        let i = choose|i: int|
            0 <= i < payload.models@.len() && ((#[trigger] payload.models@[i]).config_attributions
                is Some && payload.models@[i].config_attributions->0@.len() > 0
                || payload.models@[i].var_references is Some
                && payload.models@[i].var_references->0@.len() > 0);
        assert(has_project_mark(payload.models@[i]));
    }
    if any_project_mark(payload.models@) {
        let i = choose|i: int|
            0 <= i < payload.models@.len() && has_project_mark(#[trigger] payload.models@[i]);
        assert(payload.models@[i].config_attributions is Some || payload.models@[i].var_references
            is Some);
    }
}

/// Law: the axes of change of a model and a pull request are shown as they
/// are.
pub proof fn law_shown_as_is(axes: ChangeAxes, pr: &PrRef)
    ensures
        ({
            let a = <AxesPayload as vstd::std_specs::convert::FromSpec<ChangeAxes>>::from_spec(
                axes,
            );
            a.body == axes.body && a.config == axes.config && a.unit_test == axes.unit_test
        }),
        ({
            let p = <PrRefPayload as vstd::std_specs::convert::FromSpec<&PrRef>>::from_spec(pr);
            p.number == pr.number && p.title == pr.title && p.url == pr.url
        }),
{
}

/// Law: before it is marked, a model carries nothing of the project file and
/// no state; before it is composed, a report has nothing around its models.
pub proof fn law_bare(p: ModelPayload<'_>, r: ReportPayload<'_>)
    ensures
        unmarked(p) ==> p.config_attributions is None && p.var_references is None && p.axes is None
            && p.config_file is None && p.state is None,
        is_bare_report(r) ==> r.governance is None && r.macro_lens is None && r.pr_ref is None
            && r.seed_cards@.len() == 0 && r.pr_dag is None && r.removed_models@.len() == 0
            && r.pr_comments is None,
{
}

} // verus!
