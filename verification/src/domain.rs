//! What the report is made from: the manifest of a project, its unit tests,
//! and the CTE graphs of its models.
use vstd::prelude::*;
use vstd::string::*;
use crate::span::SourceSpan;
use crate::table::StrMap;
use crate::text::{after_last, last_piece, opt_text, same_opt, same_text};

verus! {

// ---------------------------------------------------------------------
// Diffs and fixture tables
// ---------------------------------------------------------------------

/// What a line of a diff is.
#[derive(Debug, Clone, Copy, PartialEq, Eq, Structural)]
pub enum DiffLineKind {
    Context,
    Removed,
    Added,
}

/// One line of a diff, with the range of characters to stress in it.
#[derive(Debug, PartialEq, Eq)]
pub struct DiffLine {
    pub kind: DiffLineKind,
    pub text: String,
    pub emphasis: Option<(usize, usize)>,
}

/// A diff of a block of text.
#[derive(Debug, PartialEq, Eq)]
pub struct BlockDiff {
    pub lines: Vec<DiffLine>,
}

/// The canonical value of a cell, by which cells are compared.
#[derive(Debug, PartialEq, Eq)]
pub enum CellValue {
    Absent,
    Null,
    Bool(bool),
    Number(String),
    Str(String),
}

/// A cell of a fixture table: the text as authored, and its value.
#[derive(Debug, PartialEq, Eq)]
pub struct Cell {
    pub display: String,
    pub key: CellValue,
}

/// A row of a fixture table.
#[derive(Debug, PartialEq, Eq)]
pub struct TableRow {
    pub cells: Vec<Cell>,
}

/// A fixture table.
#[derive(Debug, PartialEq, Eq)]
pub struct FixtureTable {
    pub columns: Vec<String>,
    pub rows: Vec<TableRow>,
}

/// Whether a column of a table diff is on both sides or on one.
#[derive(Debug, Clone, Copy, PartialEq, Eq, Structural)]
pub enum ColumnStatus {
    Present,
    Added,
    Removed,
}

/// A column of a table diff.
#[derive(Debug, PartialEq, Eq)]
pub struct DiffColumn {
    pub name: String,
    pub status: ColumnStatus,
}

/// What happened to a row of a table.
#[derive(Debug, Clone, Copy, PartialEq, Eq, Structural)]
pub enum RowChangeKind {
    Unchanged,
    Modified,
    Added,
    Removed,
}

/// The two sides of a cell.
#[derive(Debug, PartialEq, Eq)]
pub struct CellChange {
    pub old: Cell,
    pub new: Cell,
    pub changed: bool,
}

/// The two sides of a row.
#[derive(Debug, PartialEq, Eq)]
pub struct RowChange {
    pub kind: RowChangeKind,
    pub cells: Vec<CellChange>,
}

/// A diff of a fixture table.
#[derive(Debug, PartialEq, Eq)]
pub struct FixtureTableDiff {
    pub columns: Vec<DiffColumn>,
    pub rows: Vec<RowChange>,
}

/// The diff of the table of one given.
#[derive(Debug, PartialEq, Eq)]
pub struct NamedTableDiff {
    pub ordinal: usize,
    pub input: String,
    pub diff: FixtureTableDiff,
}

/// The diffs of the tables of a unit test.
#[derive(Debug, PartialEq, Eq)]
pub struct UnitTestDataDiff {
    pub given: Vec<NamedTableDiff>,
    pub expect: Option<FixtureTableDiff>,
}

// ---------------------------------------------------------------------
// The manifest
// ---------------------------------------------------------------------

/// What a generic test is called with.
#[derive(Debug, PartialEq)]
pub struct TestMetadata {
    pub name: String,
    pub namespace: Option<String>,
    pub kwargs: serde_json::Value,
}

/// A node of the manifest: a model, a seed, a snapshot, a test and so on.
#[derive(Debug, PartialEq)]
pub struct Node {
    pub id: String,
    pub resource_type: String,
    /// The authored name, where the manifest carries one.
    pub name: Option<String>,
    pub package_name: Option<String>,
    pub version: Option<String>,
    pub latest_version: Option<String>,
    pub compiled_code: Option<String>,
    pub raw_code: Option<String>,
    pub original_file_path: Option<String>,
    pub patch_path: Option<String>,
    pub description: Option<String>,
    pub tags: Vec<String>,
    pub materialized: Option<String>,
    /// The declared columns with their types.
    pub columns: StrMap<Option<String>>,
    pub column_descriptions: StrMap<String>,
    /// For a test: the node that it is attached to, the column that it is
    /// about, and what it is called with.
    pub attached_node: Option<String>,
    pub column_name: Option<String>,
    pub test_metadata: Option<TestMetadata>,
}

/// A source table.
#[derive(Debug, PartialEq)]
pub struct SourceNode {
    pub id: String,
    pub source_name: String,
    pub name: String,
    pub identifier: Option<String>,
    pub relation_name: Option<String>,
    pub column_descriptions: StrMap<String>,
}

/// Who a macro is.
#[derive(Debug, PartialEq, Eq)]
pub struct MacroIdentity {
    pub original_file_path: Option<String>,
    pub name: Option<String>,
    pub package_name: Option<String>,
}

/// The values that a unit test overrides, by group and name.
pub type UnitTestOverrides = StrMap<StrMap<serde_json::Value>>;

/// An input of a unit test. `table` is the grid that `rows` makes in
/// `format`, where they make one.
#[derive(Debug, PartialEq)]
pub struct UnitTestGiven {
    pub input: String,
    pub rows: serde_json::Value,
    pub format: Option<String>,
    pub fixture: Option<String>,
    pub table: Option<FixtureTable>,
}

/// The expectation of a unit test.
#[derive(Debug, PartialEq)]
pub struct UnitTestExpect {
    pub rows: serde_json::Value,
    pub format: Option<String>,
    pub fixture: Option<String>,
    pub table: Option<FixtureTable>,
}

/// A unit test.
#[derive(Debug, PartialEq)]
pub struct UnitTest {
    pub name: String,
    /// The model that the test names.
    pub model: String,
    /// The id of the node under test, where the manifest has resolved it.
    pub tested_node: Option<String>,
    pub given: Vec<UnitTestGiven>,
    pub expect: UnitTestExpect,
    pub description: Option<String>,
    pub tags: Option<Vec<String>>,
    pub meta: Option<serde_json::Value>,
    pub original_file_path: Option<String>,
    pub is_incremental_mode: Option<bool>,
    pub overrides: Option<UnitTestOverrides>,
}

impl UnitTestGiven {
    /// An input with inline rows of which no table is known.
    pub fn new(input: &str, rows: serde_json::Value) -> (r: Self)
        ensures
            r.input@ == input@,
            r.rows == rows,
            r.format is None,
            r.fixture is None,
            r.table is None,
    {
        UnitTestGiven { input: input.to_owned(), rows, format: None, fixture: None, table: None }
    }
}

impl UnitTestExpect {
    /// An expectation with inline rows of which no table is known.
    pub fn new(rows: serde_json::Value) -> (r: Self)
        ensures
            r.rows == rows,
            r.format is None,
            r.fixture is None,
            r.table is None,
    {
        UnitTestExpect { rows, format: None, fixture: None, table: None }
    }
}

impl UnitTest {
    /// A test of `model` of which nothing but inputs and expectation is known.
    pub fn new(
        name: &str,
        model: &str,
        given: Vec<UnitTestGiven>,
        expect: UnitTestExpect,
    ) -> (r: Self)
        ensures
            r.name@ == name@,
            r.model@ == model@,
            r.tested_node is None,
            r.given == given,
            r.expect == expect,
            r.description is None,
            r.tags is None,
            r.meta is None,
            r.original_file_path is None,
            r.is_incremental_mode is None,
            r.overrides is None,
    {
        UnitTest {
            name: name.to_owned(),
            model: model.to_owned(),
            tested_node: None,
            given,
            expect,
            description: None,
            tags: None,
            meta: None,
            original_file_path: None,
            is_incremental_mode: None,
            overrides: None,
        }
    }
}

/// The manifest of a project.
#[derive(Debug, PartialEq)]
pub struct Manifest {
    pub project_name: Option<String>,
    /// The nodes by id.
    pub nodes: StrMap<Node>,
    /// The sources by id.
    pub sources: StrMap<SourceNode>,
    /// The unit tests by id.
    pub unit_tests: StrMap<UnitTest>,
    /// The bodies of the macros by id.
    pub macros: StrMap<String>,
    /// The identities of the macros by id.
    pub macro_identity: StrMap<MacroIdentity>,
}

/// The last dot-separated part of an id.
pub open spec fn leaf(id: Seq<char>) -> Seq<char> {
    after_last(id, '.')
}

/// The last dot-separated part of an id.
pub fn leaf_segment(id: &str) -> (r: &str)
    ensures
        r@ == leaf(id@),
{
    last_piece(id, '.')
}

impl Node {
    /// A node of which nothing but its id and its type is known.
    pub fn new(id: &str, resource_type: &str) -> (r: Self)
        ensures
            r.id@ == id@,
            r.resource_type@ == resource_type@,
            r.name is None,
            r.package_name is None,
            r.version is None,
            r.latest_version is None,
            r.compiled_code is None,
            r.raw_code is None,
            r.original_file_path is None,
            r.patch_path is None,
            r.description is None,
            r.tags@.len() == 0,
            r.materialized is None,
            r.columns@ == Map::<Seq<char>, Option<String>>::empty(),
            r.column_descriptions@ == Map::<Seq<char>, String>::empty(),
            r.attached_node is None,
            r.column_name is None,
            r.test_metadata is None,
    {
        Node {
            id: id.to_owned(),
            resource_type: resource_type.to_owned(),
            name: None,
            package_name: None,
            version: None,
            latest_version: None,
            compiled_code: None,
            raw_code: None,
            original_file_path: None,
            patch_path: None,
            description: None,
            tags: Vec::new(),
            materialized: None,
            columns: StrMap::new(),
            column_descriptions: StrMap::new(),
            attached_node: None,
            column_name: None,
            test_metadata: None,
        }
    }

    /// The name that a `ref` uses: the authored name, else the last part of
    /// the id.
    pub open spec fn ref_name(&self) -> Seq<char> {
        match self.name {
            Some(n) => n@,
            None => leaf(self.id@),
        }
    }

    /// The name that a `ref` uses: the authored name, else the last part of
    /// the id.
    pub fn bare_name(&self) -> (r: &str)
        ensures
            r@ == self.ref_name(),
    {
        match &self.name {
            Some(n) => n.as_str(),
            None => leaf_segment(self.id.as_str()),
        }
    }

    /// This is the latest of the versions of its model.
    pub open spec fn is_latest(&self) -> bool {
        self.version is Some && opt_text(self.version) == opt_text(self.latest_version)
    }

    /// Whether this is the latest of the versions of its model.
    pub fn latest(&self) -> (r: bool)
        ensures
            r == self.is_latest(),
    {
        self.version.is_some() && same_opt(&self.version, &self.latest_version)
    }
}

/// The first position in `s` at which `p` holds.
pub open spec fn first_index<T>(s: Seq<T>, p: spec_fn(T) -> bool) -> Option<int>
    decreases s.len(),
{
    if s.len() == 0 {
        None
    } else {
        match first_index(s.drop_last(), p) {
            Some(i) => Some(i),
            None => if p(s.last()) {
                Some(s.len() - 1)
            } else {
                None
            },
        }
    }
}

/// `first_index` is the least position at which `p` holds.
pub proof fn lemma_first_index<T>(s: Seq<T>, p: spec_fn(T) -> bool)
    ensures
        match first_index(s, p) {
            Some(i) => 0 <= i < s.len() && p(s[i]) && forall|j: int|
                0 <= j < i ==> !p(#[trigger] s[j]),
            None => forall|j: int| 0 <= j < s.len() ==> !p(#[trigger] s[j]),
        },
    decreases s.len(),
{
    if s.len() > 0 {
        lemma_first_index(s.drop_last(), p);
        assert forall|j: int| 0 <= j < s.len() - 1 implies #[trigger] s[j] == s.drop_last()[j] by {}
    }
}

/// A position at which `p` holds, with none before it, is the first.
pub proof fn lemma_first_index_is<T>(s: Seq<T>, p: spec_fn(T) -> bool, i: int)
    requires
        0 <= i < s.len(),
        p(s[i]),
        forall|j: int| 0 <= j < i ==> !p(#[trigger] s[j]),
    ensures
        first_index(s, p) == Some(i),
{
    lemma_first_index(s, p);
    if let Some(k) = first_index(s, p) {
        if k < i {
            assert(!p(s[k]));
        }
    } else {
        assert(!p(s[i]));
    }
}

/// Where `p` holds nowhere, there is no first position.
pub proof fn lemma_first_index_none<T>(s: Seq<T>, p: spec_fn(T) -> bool)
    requires
        forall|j: int| 0 <= j < s.len() ==> !p(#[trigger] s[j]),
    ensures
        first_index(s, p) is None,
{
    lemma_first_index(s, p);
    if let Some(k) = first_index(s, p) {
        assert(!p(s[k]));
    }
}

/// `n` is a model that is called `name`, by its id or by its name.
pub open spec fn is_model_called(n: Node, name: Seq<char>) -> bool {
    n.resource_type@ == "model"@ && (n.id@ == name || n.ref_name() == name)
}

/// The position of the first model called `name`, in the order of the manifest.
pub open spec fn model_index(m: Manifest, name: Seq<char>) -> Option<int> {
    first_index(m.nodes.entries(), |e: (Seq<char>, Node)| is_model_called(e.1, name))
}

/// The model called `name`.
pub open spec fn model_called(m: Manifest, name: Seq<char>) -> Option<Node> {
    match model_index(m, name) {
        Some(i) => Some(m.nodes.entries()[i].1),
        None => None,
    }
}

/// The model that `name` stands for, by id or by name; of several, the first
/// in the order of the manifest.
pub fn resolve_target_model<'m>(current: &'m Manifest, name: &str) -> (r: Option<&'m Node>)
    ensures
        match r {
            Some(n) => model_called(*current, name@) == Some(*n),
            None => model_called(*current, name@) is None,
        },
{
    let ghost es = current.nodes.entries();
    let ghost p = |e: (Seq<char>, Node)| is_model_called(e.1, name@);
    let n: usize = current.nodes.len();
    let mut i: usize = 0;
    while i < n
        invariant
            i <= n == es.len(),
            es == current.nodes.entries(),
            p == (|e: (Seq<char>, Node)| is_model_called(e.1, name@)),
            forall|j: int| 0 <= j < i ==> !p(#[trigger] es[j]),
        decreases n - i,
    {
        let node: &'m Node = current.nodes.value_at(i);
        if same_text(node.resource_type.as_str(), "model") && (same_text(node.id.as_str(), name)
            || same_text(node.bare_name(), name)) {
            proof {
                assert(p(es[i as int]));
                lemma_first_index_is(es, p, i as int);
            }
            return Some(node);
        }
        i += 1;
    }
    proof {
        lemma_first_index_none(es, p);
    }
    None
}

/// The node under test of a unit test.
pub open spec fn tested_model(m: Manifest, t: UnitTest) -> Option<Node> {
    match t.tested_node {
        Some(id) => if m.nodes@.dom().contains(id@) {
            Some(m.nodes@[id@])
        } else {
            None
        },
        None => model_called(m, t.model@),
    }
}

/// The node under test of a unit test: the one that the manifest has
/// resolved, else the model that the test names.
pub fn resolve_tested_model<'m>(current: &'m Manifest, unit_test: &UnitTest) -> (r: Option<
    &'m Node,
>)
    ensures
        match r {
            Some(n) => tested_model(*current, *unit_test) == Some(*n),
            None => tested_model(*current, *unit_test) is None,
        },
{
    match &unit_test.tested_node {
        Some(id) => current.nodes.get(id.as_str()),
        None => resolve_target_model(current, unit_test.model.as_str()),
    }
}

/// The bare name of the node `id`: the one that the manifest has for it, else
/// the last part of the id.
pub open spec fn bare_of(m: Manifest, id: Seq<char>) -> Seq<char> {
    if m.nodes@.dom().contains(id) {
        m.nodes@[id].ref_name()
    } else {
        leaf(id)
    }
}

/// The bare name of the node `id`: the one that the manifest has for it, else
/// the last part of the id.
pub fn bare_name_of<'m>(current: &'m Manifest, id: &'m str) -> (r: &'m str)
    ensures
        r@ == bare_of(*current, id@),
{
    match current.nodes.get(id) {
        Some(node) => node.bare_name(),
        None => leaf_segment(id),
    }
}

/// `s` is the source table `name` of the source `source_name`.
pub open spec fn is_source(s: SourceNode, source_name: Seq<char>, name: Seq<char>) -> bool {
    s.source_name@ == source_name && s.name@ == name
}

/// The source table with the two names.
pub open spec fn source_called(m: Manifest, source_name: Seq<char>, name: Seq<char>) -> Option<
    SourceNode,
> {
    match first_index(
        m.sources.entries(),
        |e: (Seq<char>, SourceNode)| is_source(e.1, source_name, name),
    ) {
        Some(i) => Some(m.sources.entries()[i].1),
        None => None,
    }
}

impl Manifest {
    /// The manifest of a project of which nothing is known.
    pub fn new() -> (r: Self)
        ensures
            r.project_name is None,
            r.nodes@ == Map::<Seq<char>, Node>::empty(),
            r.sources@ == Map::<Seq<char>, SourceNode>::empty(),
            r.unit_tests@ == Map::<Seq<char>, UnitTest>::empty(),
            r.macros@ == Map::<Seq<char>, String>::empty(),
            r.macro_identity@ == Map::<Seq<char>, MacroIdentity>::empty(),
    {
        Manifest {
            project_name: None,
            nodes: StrMap::new(),
            sources: StrMap::new(),
            unit_tests: StrMap::new(),
            macros: StrMap::new(),
            macro_identity: StrMap::new(),
        }
    }

    /// Puts a node in, under its id.
    pub fn add_node(&mut self, node: Node)
        ensures
            final(self).nodes@ == old(self).nodes@.insert(node.id@, node),
            final(self).project_name == old(self).project_name,
            final(self).sources == old(self).sources,
            final(self).unit_tests == old(self).unit_tests,
            final(self).macros == old(self).macros,
            final(self).macro_identity == old(self).macro_identity,
    {
        let id: String = node.id.clone();
        self.nodes.insert(id, node);
    }

    /// Puts a source table in, under its id.
    pub fn add_source(&mut self, source: SourceNode)
        ensures
            final(self).sources@ == old(self).sources@.insert(source.id@, source),
            final(self).project_name == old(self).project_name,
            final(self).nodes == old(self).nodes,
            final(self).unit_tests == old(self).unit_tests,
            final(self).macros == old(self).macros,
            final(self).macro_identity == old(self).macro_identity,
    {
        let id: String = source.id.clone();
        self.sources.insert(id, source);
    }

    /// The source table with the two authored names; of several, the first in
    /// the order of the manifest.
    pub fn source_by_name<'m>(&'m self, source_name: &str, name: &str) -> (r: Option<
        &'m SourceNode,
    >)
        ensures
            match r {
                Some(s) => source_called(*self, source_name@, name@) == Some(*s),
                None => source_called(*self, source_name@, name@) is None,
            },
    {
        let ghost es = self.sources.entries();
        let ghost p = |e: (Seq<char>, SourceNode)| is_source(e.1, source_name@, name@);
        let n: usize = self.sources.len();
        let mut i: usize = 0;
        while i < n
            invariant
                i <= n == es.len(),
                es == self.sources.entries(),
                p == (|e: (Seq<char>, SourceNode)| is_source(e.1, source_name@, name@)),
                forall|j: int| 0 <= j < i ==> !p(#[trigger] es[j]),
            decreases n - i,
        {
            let source: &'m SourceNode = self.sources.value_at(i);
            if same_text(source.source_name.as_str(), source_name) && same_text(
                source.name.as_str(),
                name,
            ) {
                proof {
                    assert(p(es[i as int]));
                    lemma_first_index_is(es, p, i as int);
                }
                return Some(source);
            }
            i += 1;
        }
        proof {
            lemma_first_index_none(es, p);
        }
        None
    }
}

// ---------------------------------------------------------------------
// CTE graphs
// ---------------------------------------------------------------------

/// The name of the node that stands for a model's final select.
pub const TERMINAL_NODE_NAME: &'static str = "(final select)";

/// How one node of a CTE graph reads another.
#[derive(Debug, Clone, Copy, PartialEq, Eq, Structural)]
pub enum EdgeType {
    From,
    Inner,
    Left,
    Right,
    Full,
    Cross,
    UnionAll,
    UnionDistinct,
}

/// A node of a CTE graph.
#[derive(Debug, PartialEq, Eq)]
pub struct CteNode {
    pub name: String,
    /// Whether its body is a plain select from one relation.
    pub is_simple_from_shape: bool,
    /// The tables that its body reads, by their last identifier.
    pub body_leaf_table_refs: Vec<String>,
    /// The span of its body in the compiled code.
    pub span: Option<SourceSpan>,
}

impl CteNode {
    /// A node of which nothing but its name is known.
    pub fn new(name: &str) -> (r: Self)
        ensures
            r.name@ == name@,
            !r.is_simple_from_shape,
            r.body_leaf_table_refs@.len() == 0,
            r.span is None,
    {
        CteNode {
            name: name.to_owned(),
            is_simple_from_shape: false,
            body_leaf_table_refs: Vec::new(),
            span: None,
        }
    }
}

/// An edge of a CTE graph, from the node that is read to its reader.
#[derive(Debug, Clone, Copy, PartialEq, Eq, Structural)]
pub struct CteEdge {
    pub from: usize,
    pub to: usize,
    pub edge_type: EdgeType,
}

/// How a column of one node comes from a column of another.
#[derive(Debug, PartialEq, Eq)]
pub struct ColumnEdge {
    pub from_node: String,
    pub from_column: String,
    pub to_node: String,
    pub to_column: String,
    /// How sure it is that the one column is made from the other.
    pub confidence: String,
}

/// Where a column of a node stands in the compiled code.
#[derive(Debug, PartialEq, Eq)]
pub struct ColumnSpan {
    pub node: String,
    pub column: String,
    pub span: Option<SourceSpan>,
}

/// The CTE graph of a model.
#[derive(Debug, PartialEq, Eq)]
pub struct CteGraph {
    pub nodes: Vec<CteNode>,
    pub edges: Vec<CteEdge>,
    pub is_recursive: bool,
    pub column_edges: Vec<ColumnEdge>,
    pub column_spans: Vec<ColumnSpan>,
}

impl CteGraph {
    /// The graph of `nodes` and `edges`, not recursive, with nothing known of
    /// columns.
    pub fn new(nodes: Vec<CteNode>, edges: Vec<CteEdge>) -> (r: Self)
        ensures
            r.nodes == nodes,
            r.edges == edges,
            !r.is_recursive,
            r.column_edges@.len() == 0,
            r.column_spans@.len() == 0,
    {
        CteGraph {
            nodes,
            edges,
            is_recursive: false,
            column_edges: Vec::new(),
            column_spans: Vec::new(),
        }
    }
}

impl Default for CteGraph {
    fn default() -> (r: Self)
        ensures
            r.nodes@.len() == 0,
            r.edges@.len() == 0,
            !r.is_recursive,
            r.column_edges@.len() == 0,
            r.column_spans@.len() == 0,
    {
        CteGraph::new(Vec::new(), Vec::new())
    }
}

// ---------------------------------------------------------------------
// Laws
// ---------------------------------------------------------------------

/// Law: a node goes by its authored name, or, without one, by what stands in
/// its id behind the last dot.
pub proof fn law_bare_name(m: Manifest, n: Node, id: Seq<char>, a: Seq<char>, b: Seq<char>)
    requires
        !b.contains('.'),
    ensures
        n.name matches Some(s) ==> n.ref_name() == s@,
        n.name is None && n.id@ == a + seq!['.'] + b ==> n.ref_name() == b,
        n.name is None && n.id@ == b ==> n.ref_name() == b,
        leaf(a + seq!['.'] + b) == b,
        leaf(b) == b,
        m.nodes@.dom().contains(id) ==> bare_of(m, id) == m.nodes@[id].ref_name(),
        !m.nodes@.dom().contains(id) ==> bare_of(m, id) == leaf(id),
{
    crate::text::law_split_step(a, b, '.');
}

/// Law: a node is the latest version where it has a version and that is the
/// latest one.
pub proof fn law_latest(n: Node)
    ensures
        n.version is None ==> !n.is_latest(),
        n.version matches Some(v) ==> (n.is_latest() <==> n.latest_version is Some
            && n.latest_version->0@ == v@),
{
}

/// Law: the first position is one at which the condition holds, with none
/// before it; there is one wherever the condition holds at all.
pub proof fn law_first_index<T>(s: Seq<T>, p: spec_fn(T) -> bool, i: int)
    requires
        0 <= i < s.len(),
    ensures
        first_index(s, p) == Some(i) <==> p(s[i]) && forall|j: int|
            0 <= j < i ==> !p(#[trigger] s[j]),
        first_index(s, p) is None ==> !p(s[i]),
{
    lemma_first_index(s, p);
}

/// Law: a name stands for the first model that has it as its id or as its bare
/// name, wherever there is one; a node that is no model never counts.
pub proof fn law_model_called(m: Manifest, name: Seq<char>, i: int)
    requires
        0 <= i < m.nodes.entries().len(),
    ensures
        ({
            let es = m.nodes.entries();
            let n = es[i].1;
            &&& n.resource_type@ == "model"@ && (n.id@ == name || n.ref_name() == name) && (forall|
                j: int,
            |
                0 <= j < i ==> !((#[trigger] es[j]).1.resource_type@ == "model"@ && (es[j].1.id@
                    == name || es[j].1.ref_name() == name))) ==> model_called(m, name) == Some(n)
            &&& model_called(m, name) is None ==> !(n.resource_type@ == "model"@ && (n.id@ == name
                || n.ref_name() == name))
            &&& model_called(m, name) matches Some(x) ==> x.resource_type@ == "model"@ && (x.id@
                == name || x.ref_name() == name)
        }),
{
    let es = m.nodes.entries();
    let p = |e: (Seq<char>, Node)| is_model_called(e.1, name);
    lemma_first_index(es, p);
    if p(es[i]) && (forall|j: int|
        0 <= j < i ==> !((#[trigger] es[j]).1.resource_type@ == "model"@ && (es[j].1.id@ == name
            || es[j].1.ref_name() == name))) {
        assert forall|j: int| 0 <= j < i implies !p(#[trigger] es[j]) by {}
        lemma_first_index_is(es, p, i);
    }
}

/// Law: a unit test is on the node that the manifest has resolved for it, if
/// it names one; else on the model that it names.
pub proof fn law_tested_model(m: Manifest, t: UnitTest)
    ensures
        t.tested_node matches Some(id) ==> (m.nodes@.dom().contains(id@) ==> tested_model(m, t)
            == Some(m.nodes@[id@])) && (!m.nodes@.dom().contains(id@) ==> tested_model(m, t)
            is None),
        t.tested_node is None ==> tested_model(m, t) == model_called(m, t.model@),
{
}

/// Law: two names stand for the first source table that has both, wherever
/// there is one.
pub proof fn law_source_called(m: Manifest, source: Seq<char>, name: Seq<char>, i: int)
    requires
        0 <= i < m.sources.entries().len(),
    ensures
        ({
            let es = m.sources.entries();
            let s = es[i].1;
            &&& s.source_name@ == source && s.name@ == name && (forall|j: int|
                0 <= j < i ==> !((#[trigger] es[j]).1.source_name@ == source && es[j].1.name@
                    == name)) ==> source_called(m, source, name) == Some(s)
            &&& source_called(m, source, name) is None ==> !(s.source_name@ == source && s.name@
                == name)
            &&& source_called(m, source, name) matches Some(x) ==> x.source_name@ == source
                && x.name@ == name
        }),
{
    let es = m.sources.entries();
    let p = |e: (Seq<char>, SourceNode)| is_source(e.1, source, name);
    lemma_first_index(es, p);
    if p(es[i]) && (forall|j: int|
        0 <= j < i ==> !((#[trigger] es[j]).1.source_name@ == source && es[j].1.name@ == name)) {
        assert forall|j: int| 0 <= j < i implies !p(#[trigger] es[j]) by {}
        lemma_first_index_is(es, p, i);
    }
}

} // verus!
