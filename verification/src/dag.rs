//! The CTE graph of a model as the report draws it, and the binding of a unit
//! test's inputs to its nodes.
use vstd::prelude::*;
use vstd::string::*;
use crate::domain::{
    first_index, lemma_first_index_is, lemma_first_index_none, source_called, CteEdge, CteGraph,
    CteNode, EdgeType, Manifest, TERMINAL_NODE_NAME,
};
use crate::refs::{relation_token, source_relation_token};
use crate::text::{lowered, opt_text, same_ignoring_case, same_text};

verus! {

/// The key of an edge type in the report.
pub open spec fn edge_key(edge_type: EdgeType) -> Seq<char> {
    match edge_type {
        EdgeType::From => "from"@,
        EdgeType::Inner => "inner"@,
        EdgeType::Left => "left"@,
        EdgeType::Right => "right"@,
        EdgeType::Full => "full"@,
        EdgeType::Cross => "cross"@,
        EdgeType::UnionAll => "union_all"@,
        EdgeType::UnionDistinct => "union_distinct"@,
    }
}

/// The key of an edge type in the report.
pub fn edge_type_wire_key(edge_type: EdgeType) -> (r: &'static str)
    ensures
        r@ == edge_key(edge_type),
{
    match edge_type {
        EdgeType::From => "from",
        EdgeType::Inner => "inner",
        EdgeType::Left => "left",
        EdgeType::Right => "right",
        EdgeType::Full => "full",
        EdgeType::Cross => "cross",
        EdgeType::UnionAll => "union_all",
        EdgeType::UnionDistinct => "union_distinct",
    }
}

/// Law: no two edge types share a key.
pub proof fn law_edge_keys_differ(a: EdgeType, b: EdgeType)
    requires
        edge_key(a) == edge_key(b),
    ensures
        a == b,
{
    reveal_strlit("from");
    reveal_strlit("inner");
    reveal_strlit("left");
    reveal_strlit("right");
    reveal_strlit("full");
    reveal_strlit("cross");
    reveal_strlit("union_all");
    reveal_strlit("union_distinct");
    assert("from"@.len() == 4 && "from"@[0] == 'f' && "from"@[1] == 'r');
    assert("inner"@.len() == 5 && "inner"@[0] == 'i' && "inner"@[1] == 'n');
    assert("left"@.len() == 4 && "left"@[0] == 'l' && "left"@[1] == 'e');
    assert("right"@.len() == 5 && "right"@[0] == 'r' && "right"@[1] == 'i');
    assert("full"@.len() == 4 && "full"@[0] == 'f' && "full"@[1] == 'u');
    assert("cross"@.len() == 5 && "cross"@[0] == 'c' && "cross"@[1] == 'r');
    assert("union_all"@.len() == 9 && "union_all"@[0] == 'u' && "union_all"@[1] == 'n');
    assert("union_distinct"@.len() == 14 && "union_distinct"@[0] == 'u' && "union_distinct"@[1] == 'n');
    assert(edge_key(a).len() == edge_key(b).len());
    assert(edge_key(a)[0] == edge_key(b)[0]);
    assert(edge_key(a)[1] == edge_key(b)[1]);
}

// ---------------------------------------------------------------------
// Roles
// ---------------------------------------------------------------------

/// What a node is in the graph of a model.
#[derive(Debug, Clone, Copy, PartialEq, Eq, Structural)]
pub enum NodeRole {
    /// The final select.
    Final,
    /// A plain select from one relation, which reads no other node.
    Import,
    /// Anything else.
    Transform,
}

/// The node at position `i` is the final select.
pub open spec fn is_terminal(graph: CteGraph, i: int) -> bool {
    graph.nodes@[i].name@ == TERMINAL_NODE_NAME@
}

/// The node at position `i` reads another node of the graph.
pub open spec fn has_incoming(graph: CteGraph, i: int) -> bool {
    exists|k: int| 0 <= k < graph.edges@.len() && (#[trigger] graph.edges@[k]).to == i
}

/// The role of the node at position `i`.
pub open spec fn role_of(graph: CteGraph, i: int) -> NodeRole {
    if !(0 <= i < graph.nodes@.len()) {
        NodeRole::Transform
    } else if is_terminal(graph, i) {
        NodeRole::Final
    } else if !has_incoming(graph, i) && graph.nodes@[i].is_simple_from_shape {
        NodeRole::Import
    } else {
        NodeRole::Transform
    }
}

/// Whether the node at position `index` reads another node of the graph.
fn any_incoming(graph: &CteGraph, index: usize) -> (r: bool)
    ensures
        r == has_incoming(*graph, index as int),
{
    let mut k: usize = 0;
    while k < graph.edges.len()
        invariant
            k <= graph.edges@.len(),
            forall|j: int| 0 <= j < k ==> (#[trigger] graph.edges@[j]).to != index,
        decreases graph.edges@.len() - k,
    {
        if graph.edges[k].to == index {
            assert(graph.edges@[k as int].to == index as int);
            return true;
        }
        k += 1;
    }
    false
}

/// The role of the node at position `node_index`; a position outside the
/// graph counts as a transform.
pub fn classify_node_role(graph: &CteGraph, node_index: usize) -> (r: NodeRole)
    ensures
        r == role_of(*graph, node_index as int),
{
    if node_index >= graph.nodes.len() {
        return NodeRole::Transform;
    }
    let node: &CteNode = &graph.nodes[node_index];
    if same_text(node.name.as_str(), TERMINAL_NODE_NAME) {
        return NodeRole::Final;
    }
    if any_incoming(graph, node_index) {
        return NodeRole::Transform;
    }
    if node.is_simple_from_shape {
        NodeRole::Import
    } else {
        NodeRole::Transform
    }
}

// ---------------------------------------------------------------------
// Binding inputs to nodes
// ---------------------------------------------------------------------

/// The numbers from zero up to `n`, `n` left out.
pub open spec fn upto(n: nat) -> Seq<int> {
    Seq::new(n, |i: int| i)
}

/// The node at position `i` reads no other node and is not the final select.
pub open spec fn is_leaf(graph: CteGraph, i: int) -> bool {
    0 <= i < graph.nodes@.len() && !is_terminal(graph, i) && !has_incoming(graph, i)
}

/// Whether the node at position `index` reads no other node and is not the
/// final select.
pub fn is_leaf_binding_candidate(graph: &CteGraph, index: usize) -> (r: bool)
    ensures
        r == is_leaf(*graph, index as int),
{
    if index >= graph.nodes.len() {
        return false;
    }
    if same_text(graph.nodes[index].name.as_str(), TERMINAL_NODE_NAME) {
        return false;
    }
    !any_incoming(graph, index)
}

/// The node at position `i` is an import called `name`, in any ASCII case.
pub open spec fn imports_by_name(graph: CteGraph, i: int, name: Seq<char>) -> bool {
    lowered(graph.nodes@[i].name@) == lowered(name) && role_of(graph, i) == NodeRole::Import
}

/// The node at position `i` is a leaf that reads a table called `name`, in
/// any ASCII case.
pub open spec fn imports_by_body(graph: CteGraph, i: int, name: Seq<char>) -> bool {
    is_leaf(graph, i) && reads_table(graph.nodes@[i], name)
}

/// The body of `node` reads a table called `name`, in any ASCII case.
pub open spec fn reads_table(node: CteNode, name: Seq<char>) -> bool {
    exists|k: int|
        0 <= k < node.body_leaf_table_refs@.len() && lowered(
            (#[trigger] node.body_leaf_table_refs@[k])@,
        ) == lowered(name)
}

/// The position of the node that the input `name` binds to: the first import
/// of that name, else the first leaf whose body reads a table of that name.
pub open spec fn import_index(graph: CteGraph, name: Seq<char>) -> Option<int> {
    let all = upto(graph.nodes@.len());
    match first_index(all, |i: int| imports_by_name(graph, i, name)) {
        Some(i) => Some(i),
        None => first_index(all, |i: int| imports_by_body(graph, i, name)),
    }
}

/// The name of the node that the input `name` binds to.
pub open spec fn import_node(graph: CteGraph, name: Seq<char>) -> Option<Seq<char>> {
    match import_index(graph, name) {
        Some(i) => Some(graph.nodes@[i].name@),
        None => None,
    }
}

fn body_reads(node: &CteNode, name: &str) -> (r: bool)
    ensures
        r == reads_table(*node, name@),
{
    let mut k: usize = 0;
    while k < node.body_leaf_table_refs.len()
        invariant
            k <= node.body_leaf_table_refs@.len(),
            forall|j: int|
                0 <= j < k ==> lowered((#[trigger] node.body_leaf_table_refs@[j])@) != lowered(
                    name@,
                ),
        decreases node.body_leaf_table_refs@.len() - k,
    {
        if same_ignoring_case(node.body_leaf_table_refs[k].as_str(), name) {
            assert(lowered(node.body_leaf_table_refs@[k as int]@) == lowered(name@));
            return true;
        }
        k += 1;
    }
    false
}

/// The name of the node that `ref_name` binds to: the first import of that
/// name, else the first leaf whose body reads a table of that name; in any
/// ASCII case.
pub fn find_import_node_id(graph: &CteGraph, ref_name: &str) -> (r: Option<String>)
    ensures
        opt_text(r) == import_node(*graph, ref_name@),
{
    let ghost all = upto(graph.nodes@.len());
    let ghost by_name = |i: int| imports_by_name(*graph, i, ref_name@);
    let ghost by_body = |i: int| imports_by_body(*graph, i, ref_name@);
    let mut i: usize = 0;
    while i < graph.nodes.len()
        invariant
            i <= graph.nodes@.len(),
            all == upto(graph.nodes@.len()),
            by_name == (|i: int| imports_by_name(*graph, i, ref_name@)),
            forall|j: int| 0 <= j < i ==> !by_name(#[trigger] all[j]),
        decreases graph.nodes@.len() - i,
    {
        assert(all[i as int] == i as int);
        if same_ignoring_case(graph.nodes[i].name.as_str(), ref_name) && classify_node_role(
            graph,
            i,
        ) == NodeRole::Import {
            proof {
                assert(by_name(all[i as int]));
                lemma_first_index_is(all, by_name, i as int);
            }
            return Some(graph.nodes[i].name.clone());
        }
        i += 1;
    }
    proof {
        lemma_first_index_none(all, by_name);
    }
    let mut k: usize = 0;
    while k < graph.nodes.len()
        invariant
            k <= graph.nodes@.len(),
            all == upto(graph.nodes@.len()),
            by_body == (|i: int| imports_by_body(*graph, i, ref_name@)),
            first_index(all, |i: int| imports_by_name(*graph, i, ref_name@)) is None,
            forall|j: int| 0 <= j < k ==> !by_body(#[trigger] all[j]),
        decreases graph.nodes@.len() - k,
    {
        assert(all[k as int] == k as int);
        if is_leaf_binding_candidate(graph, k) && body_reads(&graph.nodes[k], ref_name) {
            proof {
                assert(by_body(all[k as int]));
                lemma_first_index_is(all, by_body, k as int);
            }
            return Some(graph.nodes[k].name.clone());
        }
        k += 1;
    }
    proof {
        lemma_first_index_none(all, by_body);
    }
    None
}

/// The name of the node that a source table binds to.
pub open spec fn source_node(
    manifest: Manifest,
    graph: CteGraph,
    source_name: Seq<char>,
    table_name: Seq<char>,
) -> Option<Seq<char>> {
    match source_called(manifest, source_name, table_name) {
        Some(source) => if relation_token(source).len() == 0 {
            None
        } else {
            import_node(graph, relation_token(source))
        },
        None => None,
    }
}

/// The name of the node that reads the source table with the two names, by
/// the name that the table has in compiled SQL.
pub fn find_source_import_node_id(
    manifest: &Manifest,
    graph: &CteGraph,
    source_name: &str,
    table_name: &str,
) -> (r: Option<String>)
    ensures
        opt_text(r) == source_node(*manifest, *graph, source_name@, table_name@),
{
    match manifest.source_by_name(source_name, table_name) {
        Some(source) => {
            let token: &str = source_relation_token(source);
            if token.is_empty() {
                None
            } else {
                find_import_node_id(graph, token)
            }
        },
        None => None,
    }
}

/// Law: an input never binds to the final select, nor to a node that reads
/// another node of the graph.
pub proof fn law_inputs_bind_to_leaves(graph: CteGraph, name: Seq<char>)
    ensures
        import_index(graph, name) matches Some(i) ==> is_leaf(graph, i),
{
    let all = upto(graph.nodes@.len());
    let by_name = |i: int| imports_by_name(graph, i, name);
    let by_body = |i: int| imports_by_body(graph, i, name);
    crate::domain::lemma_first_index(all, by_name);
    crate::domain::lemma_first_index(all, by_body);
    if let Some(k) = first_index(all, by_name) {
        assert(by_name(all[k]));
    } else if let Some(k) = first_index(all, by_body) {
        assert(by_body(all[k]));
    }
}

// ---------------------------------------------------------------------
// The graph in the report
// ---------------------------------------------------------------------

/// A node as the report draws it.
#[derive(Debug, PartialEq, Eq)]
pub struct NodePayload {
    pub id: String,
    /// The name to show in place of the id, for the final select.
    pub label: Option<String>,
    pub role: NodeRole,
}

/// An edge as the report draws it, by the names of its ends.
#[derive(Debug, PartialEq, Eq)]
pub struct EdgePayload {
    pub from: String,
    pub to: String,
    pub edge_type: EdgeType,
}

/// A graph as the report draws it.
#[derive(Debug, PartialEq, Eq)]
pub struct DagPayload {
    pub nodes: Vec<NodePayload>,
    pub edges: Vec<EdgePayload>,
}

/// `p` draws the node at position `i`.
pub open spec fn draws_node(p: NodePayload, graph: CteGraph, model_name: Seq<char>, i: int) -> bool {
    &&& p.id@ == graph.nodes@[i].name@
    &&& p.role == role_of(graph, i)
    &&& opt_text(p.label) == if role_of(graph, i) == NodeRole::Final {
        Some(model_name + ".sql"@)
    } else {
        None
    }
}

/// `out` draws the nodes of the graph, in order.
pub open spec fn draws_nodes(
    out: Seq<NodePayload>,
    graph: CteGraph,
    model_name: Seq<char>,
) -> bool {
    &&& out.len() == graph.nodes@.len()
    &&& forall|i: int|
        0 <= i < out.len() ==> draws_node(#[trigger] out[i], graph, model_name, i)
}

/// The nodes of the graph with their roles; the final select is labelled with
/// the file name of the model.
pub fn build_node_payloads(graph: &CteGraph, model_name: &str) -> (r: Vec<NodePayload>)
    ensures
        draws_nodes(r@, *graph, model_name@),
{
    let mut out: Vec<NodePayload> = Vec::new();
    let mut i: usize = 0;
    while i < graph.nodes.len()
        invariant
            i <= graph.nodes@.len(),
            out@.len() == i,
            forall|j: int| 0 <= j < i ==> draws_node(#[trigger] out@[j], *graph, model_name@, j),
        decreases graph.nodes@.len() - i,
    {
        let role: NodeRole = classify_node_role(graph, i);
        let label: Option<String> = if role == NodeRole::Final {
            let mut s: String = model_name.to_owned();
            s.append(".sql");
            Some(s)
        } else {
            None
        };
        out.push(NodePayload { id: graph.nodes[i].name.clone(), label, role });
        i += 1;
    }
    out
}

/// The name of the node at position `index`; empty outside the graph.
pub open spec fn end_name(graph: CteGraph, index: int) -> Seq<char> {
    if 0 <= index < graph.nodes@.len() {
        graph.nodes@[index].name@
    } else {
        Seq::empty()
    }
}

/// The name of the node at position `index`; empty outside the graph.
pub fn endpoint_id(graph: &CteGraph, index: usize) -> (r: String)
    ensures
        r@ == end_name(*graph, index as int),
{
    if index < graph.nodes.len() {
        graph.nodes[index].name.clone()
    } else {
        String::new()
    }
}

/// `p` draws the edge `e`.
pub open spec fn draws_edge(p: EdgePayload, graph: CteGraph, e: CteEdge) -> bool {
    &&& p.from@ == end_name(graph, e.from as int)
    &&& p.to@ == end_name(graph, e.to as int)
    &&& p.edge_type == e.edge_type
}

/// `out` draws the edges of the graph, in order.
pub open spec fn draws_edges(out: Seq<EdgePayload>, graph: CteGraph) -> bool {
    &&& out.len() == graph.edges@.len()
    &&& forall|i: int|
        0 <= i < out.len() ==> draws_edge(#[trigger] out[i], graph, graph.edges@[i])
}

/// The edges of the graph by the names of their ends.
pub fn build_edge_payloads(graph: &CteGraph) -> (r: Vec<EdgePayload>)
    ensures
        draws_edges(r@, *graph),
{
    let mut out: Vec<EdgePayload> = Vec::new();
    let mut i: usize = 0;
    while i < graph.edges.len()
        invariant
            i <= graph.edges@.len(),
            out@.len() == i,
            forall|j: int| 0 <= j < i ==> draws_edge(#[trigger] out@[j], *graph, graph.edges@[j]),
        decreases graph.edges@.len() - i,
    {
        let edge: CteEdge = graph.edges[i];
        out.push(
            EdgePayload {
                from: endpoint_id(graph, edge.from),
                to: endpoint_id(graph, edge.to),
                edge_type: edge.edge_type,
            },
        );
        i += 1;
    }
    out
}

// ---------------------------------------------------------------------
// Laws on roles, bindings and drawing
// ---------------------------------------------------------------------

/// Law: the keys of the edge types.
pub proof fn law_edge_keys()
    ensures
        edge_key(EdgeType::From) == "from"@,
        edge_key(EdgeType::Inner) == "inner"@,
        edge_key(EdgeType::Left) == "left"@,
        edge_key(EdgeType::Right) == "right"@,
        edge_key(EdgeType::Full) == "full"@,
        edge_key(EdgeType::Cross) == "cross"@,
        edge_key(EdgeType::UnionAll) == "union_all"@,
        edge_key(EdgeType::UnionDistinct) == "union_distinct"@,
{
}

/// No edge of the graph leads to the node at position `i`.
pub open spec fn reads_no_node(graph: CteGraph, i: int) -> bool {
    forall|k: int| 0 <= k < graph.edges@.len() ==> (#[trigger] graph.edges@[k]).to != i
}

/// Law: the node with the reserved name is the final select; a plain select
/// that no edge leads to is an import; every other node, and every position
/// outside the graph, is a transform.
pub proof fn law_roles(graph: CteGraph, i: int)
    ensures
        0 <= i < graph.nodes@.len() && graph.nodes@[i].name@ == "(final select)"@ ==> role_of(
            graph,
            i,
        ) == NodeRole::Final,
        0 <= i < graph.nodes@.len() && graph.nodes@[i].name@ != "(final select)"@ && reads_no_node(
            graph,
            i,
        ) && graph.nodes@[i].is_simple_from_shape ==> role_of(graph, i) == NodeRole::Import,
        0 <= i < graph.nodes@.len() && graph.nodes@[i].name@ != "(final select)"@ && (
        !reads_no_node(graph, i) || !graph.nodes@[i].is_simple_from_shape) ==> role_of(graph, i)
            == NodeRole::Transform,
        !(0 <= i < graph.nodes@.len()) ==> role_of(graph, i) == NodeRole::Transform,
        is_leaf(graph, i) <==> 0 <= i < graph.nodes@.len() && graph.nodes@[i].name@
            != "(final select)"@ && reads_no_node(graph, i),
{
}

/// The node at position `i` is an import that has the name, in any case.
pub open spec fn import_named(graph: CteGraph, i: int, name: Seq<char>) -> bool {
    role_of(graph, i) == NodeRole::Import && lowered(graph.nodes@[i].name@) == lowered(name)
}

/// The node at position `i` is a leaf whose body reads a table of the name, in
/// any case.
pub open spec fn leaf_reading(graph: CteGraph, i: int, name: Seq<char>) -> bool {
    is_leaf(graph, i) && exists|k: int|
        0 <= k < graph.nodes@[i].body_leaf_table_refs@.len() && lowered(
            (#[trigger] graph.nodes@[i].body_leaf_table_refs@[k])@,
        ) == lowered(name)
}

/// Law: an input binds to the first import of its name, wherever there is one;
/// else to the first leaf that reads a table of its name, wherever there is
/// one; else to nothing.
pub proof fn law_import_binding(graph: CteGraph, name: Seq<char>, i: int)
    requires
        0 <= i < graph.nodes@.len(),
    ensures
        import_named(graph, i, name) && (forall|j: int|
            0 <= j < i ==> !#[trigger] import_named(graph, j, name)) ==> import_node(graph, name)
            == Some(graph.nodes@[i].name@),
        (forall|j: int| 0 <= j < graph.nodes@.len() ==> !#[trigger] import_named(graph, j, name))
            && leaf_reading(graph, i, name) && (forall|j: int|
            0 <= j < i ==> !#[trigger] leaf_reading(graph, j, name)) ==> import_node(graph, name)
            == Some(graph.nodes@[i].name@),
        (forall|j: int| 0 <= j < graph.nodes@.len() ==> !#[trigger] import_named(graph, j, name))
            && (forall|j: int|
            0 <= j < graph.nodes@.len() ==> !#[trigger] leaf_reading(graph, j, name))
            ==> import_node(graph, name) is None,
{
    let all = upto(graph.nodes@.len());
    let by_name = |i: int| imports_by_name(graph, i, name);
    let by_body = |i: int| imports_by_body(graph, i, name);
    assert(all[i] == i);
    assert forall|j: int| 0 <= j < all.len() implies by_name(#[trigger] all[j]) == import_named(
        graph,
        j,
        name,
    ) && by_body(all[j]) == leaf_reading(graph, j, name) by {}
    if import_named(graph, i, name) && (forall|j: int|
        0 <= j < i ==> !#[trigger] import_named(graph, j, name)) {
        lemma_first_index_is(all, by_name, i);
    }
    if forall|j: int| 0 <= j < graph.nodes@.len() ==> !#[trigger] import_named(graph, j, name) {
        assert forall|j: int| 0 <= j < all.len() implies !by_name(#[trigger] all[j]) by {
            assert(!import_named(graph, j, name));
        }
        lemma_first_index_none(all, by_name);
        if leaf_reading(graph, i, name) && (forall|j: int|
            0 <= j < i ==> !#[trigger] leaf_reading(graph, j, name)) {
            lemma_first_index_is(all, by_body, i);
        }
        if forall|j: int| 0 <= j < graph.nodes@.len() ==> !#[trigger] leaf_reading(graph, j, name) {
            assert forall|j: int| 0 <= j < all.len() implies !by_body(#[trigger] all[j]) by {
                assert(!leaf_reading(graph, j, name));
            }
            lemma_first_index_none(all, by_body);
        }
    }
}

/// Law: a source binds by the name that its table has in compiled SQL; a
/// source that the manifest does not have, or whose table has no name, binds
/// to nothing.
pub proof fn law_source_binding(
    m: Manifest,
    graph: CteGraph,
    source: Seq<char>,
    table: Seq<char>,
)
    ensures
        source_called(m, source, table) is None ==> source_node(m, graph, source, table) is None,
        source_called(m, source, table) matches Some(s) ==> (relation_token(s).len() > 0
            ==> source_node(m, graph, source, table) == import_node(graph, relation_token(s))) && (
        relation_token(s).len() == 0 ==> source_node(m, graph, source, table) is None),
{
}

/// Law: the graph is drawn node by node and edge by edge, in order: each node
/// by its name with its role, the final select labelled with the file name of
/// the model and no other node labelled; each edge from name to name with its
/// type.
pub proof fn law_drawing(
    nodes: Seq<NodePayload>,
    edges: Seq<EdgePayload>,
    graph: CteGraph,
    model_name: Seq<char>,
)
    requires
        draws_nodes(nodes, graph, model_name),
        draws_edges(edges, graph),
    ensures
        nodes.len() == graph.nodes@.len(),
        forall|i: int|
            0 <= i < nodes.len() ==> (#[trigger] nodes[i]).id@ == graph.nodes@[i].name@
                && nodes[i].role == role_of(graph, i),
        forall|i: int|
            0 <= i < nodes.len() && role_of(graph, i) == NodeRole::Final ==> (
            #[trigger] nodes[i]).label is Some && nodes[i].label->0@ == model_name + ".sql"@,
        forall|i: int|
            0 <= i < nodes.len() && role_of(graph, i) != NodeRole::Final ==> (
            #[trigger] nodes[i]).label is None,
        edges.len() == graph.edges@.len(),
        forall|i: int|
            0 <= i < edges.len() ==> (#[trigger] edges[i]).edge_type == graph.edges@[i].edge_type,
        forall|i: int|
            0 <= i < edges.len() && graph.edges@[i].from < graph.nodes@.len() ==> (
            #[trigger] edges[i]).from@ == graph.nodes@[graph.edges@[i].from as int].name@,
        forall|i: int|
            0 <= i < edges.len() && graph.edges@[i].to < graph.nodes@.len() ==> (
            #[trigger] edges[i]).to@ == graph.nodes@[graph.edges@[i].to as int].name@,
        forall|i: int|
            0 <= i < edges.len() && graph.edges@[i].from >= graph.nodes@.len() ==> (
            #[trigger] edges[i]).from@.len() == 0,
        forall|i: int|
            0 <= i < edges.len() && graph.edges@[i].to >= graph.nodes@.len() ==> (
            #[trigger] edges[i]).to@.len() == 0,
{
    assert forall|i: int| 0 <= i < nodes.len() implies draws_node(
        #[trigger] nodes[i],
        graph,
        model_name,
        i,
    ) by {}
    assert forall|i: int| 0 <= i < edges.len() implies draws_edge(
        #[trigger] edges[i],
        graph,
        graph.edges@[i],
    ) by {}
}

} // verus!
