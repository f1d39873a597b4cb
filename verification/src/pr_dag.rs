//! The graph of the models that a pull request touches, with the counts that
//! the report states of it.
use vstd::prelude::*;
use vstd::string::*;
use crate::table::{keys_ascend, lemma_lookup, StrMap};

verus! {

/// What happened to a model.
#[derive(Debug, Clone, Copy, PartialEq, Eq, Structural)]
pub enum PrDagState {
    New,
    Modified,
    Deleted,
}

/// A model in the graph. A connector joins changed models; a halo node is a
/// neighbour shown for context.
#[derive(Debug, PartialEq, Eq)]
pub struct PrDagNode {
    pub id: String,
    pub name: String,
    pub state: PrDagState,
    pub is_connector: bool,
    pub is_halo: bool,
    pub lines_added: usize,
    pub lines_removed: usize,
}

/// A dependency between two models.
#[derive(Debug, PartialEq, Eq)]
pub struct PrDagEdge {
    pub from: String,
    pub to: String,
}

/// The graph.
#[derive(Debug, PartialEq, Eq)]
pub struct PrDagGraph {
    pub nodes: Vec<PrDagNode>,
    pub edges: Vec<PrDagEdge>,
}

impl Default for PrDagGraph {
    fn default() -> (r: Self)
        ensures
            r.nodes@.len() == 0,
            r.edges@.len() == 0,
    {
        PrDagGraph { nodes: Vec::new(), edges: Vec::new() }
    }
}

/// The tier that a model is counted in.
#[derive(Debug, Clone, Copy, PartialEq, Eq, Structural)]
pub enum Tier {
    Connector,
    Halo,
    Deleted,
    Modified,
}

/// The tier of a model: to be a connector counts before to be a halo node,
/// and both before what happened to it. A new model counts as modified.
pub open spec fn tier_of(n: PrDagNode) -> Tier {
    if n.is_connector {
        Tier::Connector
    } else if n.is_halo {
        Tier::Halo
    } else if n.state == PrDagState::Deleted {
        Tier::Deleted
    } else {
        Tier::Modified
    }
}

/// The number of models in the tier `t`.
pub open spec fn tier_count(nodes: Seq<PrDagNode>, t: Tier) -> nat
    decreases nodes.len(),
{
    if nodes.len() == 0 {
        0
    } else {
        tier_count(nodes.drop_last(), t) + if tier_of(nodes.last()) == t {
            1nat
        } else {
            0nat
        }
    }
}

/// Law: every model is counted in one tier.
pub proof fn law_tiers_partition(nodes: Seq<PrDagNode>)
    ensures
        tier_count(nodes, Tier::Modified) + tier_count(nodes, Tier::Connector) + tier_count(
            nodes,
            Tier::Halo,
        ) + tier_count(nodes, Tier::Deleted) == nodes.len(),
    decreases nodes.len(),
{
    if nodes.len() > 0 {
        law_tiers_partition(nodes.drop_last());
    }
}

/// The number of models in each tier.
#[derive(Debug, Clone, Copy, PartialEq, Eq, Structural)]
pub struct PrDagTierCounts {
    pub modified_count: usize,
    pub connector_count: usize,
    pub halo_count: usize,
    pub deleted_count: usize,
}

impl PrDagTierCounts {
    /// These are the counts of `nodes`.
    pub open spec fn counts(self, nodes: Seq<PrDagNode>) -> bool {
        &&& self.modified_count == tier_count(nodes, Tier::Modified)
        &&& self.connector_count == tier_count(nodes, Tier::Connector)
        &&& self.halo_count == tier_count(nodes, Tier::Halo)
        &&& self.deleted_count == tier_count(nodes, Tier::Deleted)
    }

    /// Counts the models of a graph by tier.
    pub fn from_graph(graph: &PrDagGraph) -> (r: Self)
        ensures
            r.counts(graph.nodes@),
    {
        let mut counts: PrDagTierCounts = PrDagTierCounts {
            modified_count: 0,
            connector_count: 0,
            halo_count: 0,
            deleted_count: 0,
        };
        let mut i: usize = 0;
        assert(graph.nodes@.take(0) == Seq::<PrDagNode>::empty());
        while i < graph.nodes.len()
            invariant
                i <= graph.nodes@.len(),
                counts.counts(graph.nodes@.take(i as int)),
            decreases graph.nodes@.len() - i,
        {
            proof {
                law_tiers_partition(graph.nodes@.take(i as int));
                assert(graph.nodes@.take(i as int + 1).drop_last() == graph.nodes@.take(i as int));
            }
            let node: &PrDagNode = &graph.nodes[i];
            if node.is_connector {
                counts.connector_count += 1;
            } else if node.is_halo {
                counts.halo_count += 1;
            } else if node.state == PrDagState::Deleted {
                counts.deleted_count += 1;
            } else {
                counts.modified_count += 1;
            }
            i += 1;
        }
        assert(graph.nodes@.take(i as int) == graph.nodes@);
        counts
    }
}

/// The part of the graph that one axis of change concerns.
#[derive(Debug, PartialEq, Eq)]
pub struct PrDagAxisView {
    pub graph: PrDagGraph,
    pub modified_count: usize,
    pub connector_count: usize,
    pub halo_count: usize,
    pub deleted_count: usize,
    /// Whether the graph is too large to draw.
    pub collapsed: bool,
}

impl PrDagAxisView {
    /// This is the view of `graph`, drawn up to `node_cap` models.
    pub open spec fn views(self, graph: PrDagGraph, node_cap: usize) -> bool {
        &&& self.graph == graph
        &&& self.modified_count == tier_count(graph.nodes@, Tier::Modified)
        &&& self.connector_count == tier_count(graph.nodes@, Tier::Connector)
        &&& self.halo_count == tier_count(graph.nodes@, Tier::Halo)
        &&& self.deleted_count == tier_count(graph.nodes@, Tier::Deleted)
        &&& self.collapsed == (graph.nodes@.len() > node_cap)
    }

    /// The view of a graph. It is collapsed where the graph has more than
    /// `node_cap` models.
    pub fn from_graph(graph: PrDagGraph, node_cap: usize) -> (r: Self)
        ensures
            r.views(graph, node_cap),
    {
        let counts: PrDagTierCounts = PrDagTierCounts::from_graph(&graph);
        let collapsed: bool = graph.nodes.len() > node_cap;
        PrDagAxisView {
            graph,
            modified_count: counts.modified_count,
            connector_count: counts.connector_count,
            halo_count: counts.halo_count,
            deleted_count: counts.deleted_count,
            collapsed,
        }
    }
}

/// The graph of a pull request, with a view for each axis of change.
#[derive(Debug, PartialEq)]
pub struct PrDagPayload {
    pub graph: PrDagGraph,
    pub modified_count: usize,
    pub connector_count: usize,
    pub halo_count: usize,
    pub deleted_count: usize,
    pub collapsed: bool,
    pub by_axis: StrMap<PrDagAxisView>,
}

impl PrDagPayload {
    /// This is the payload of `graph`, drawn up to `node_cap` models.
    pub open spec fn shows(self, graph: PrDagGraph, node_cap: usize) -> bool {
        &&& self.graph == graph
        &&& self.modified_count == tier_count(graph.nodes@, Tier::Modified)
        &&& self.connector_count == tier_count(graph.nodes@, Tier::Connector)
        &&& self.halo_count == tier_count(graph.nodes@, Tier::Halo)
        &&& self.deleted_count == tier_count(graph.nodes@, Tier::Deleted)
        &&& self.collapsed == (graph.nodes@.len() > node_cap)
    }

    /// The payload of a graph, without views by axis.
    pub fn from_graph(graph: PrDagGraph, node_cap: usize) -> (r: Self)
        ensures
            r.shows(graph, node_cap),
            r.by_axis@ == Map::<Seq<char>, PrDagAxisView>::empty(),
    {
        let axes: StrMap<PrDagGraph> = StrMap::new();
        let r: PrDagPayload = PrDagPayload::from_graph_with_axes(graph, axes, node_cap);
        assert(r.by_axis@ =~= Map::<Seq<char>, PrDagAxisView>::empty());
        r
    }

    /// The payload of a graph, with a view of each of `by_axis_graphs` under
    /// its own key.
    pub fn from_graph_with_axes(
        graph: PrDagGraph,
        by_axis_graphs: StrMap<PrDagGraph>,
        node_cap: usize,
    ) -> (r: Self)
        ensures
            r.shows(graph, node_cap),
            r.by_axis@.dom() == by_axis_graphs@.dom(),
            forall|axis: Seq<char>| #[trigger]
                r.by_axis@.dom().contains(axis) ==> r.by_axis@[axis].views(
                    by_axis_graphs@[axis],
                    node_cap,
                ),
    {
        let counts: PrDagTierCounts = PrDagTierCounts::from_graph(&graph);
        let collapsed: bool = graph.nodes.len() > node_cap;
        let ghost all = by_axis_graphs.entries();
        let ghost source = by_axis_graphs@;
        let mut by_axis: StrMap<PrDagAxisView> = StrMap::new();
        let rows: Vec<(String, PrDagGraph)> = by_axis_graphs.into_entries();
        for e in it: rows
            invariant
                it.seq() == rows@,
                keys_ascend(all),
                rows@.len() == all.len(),
                forall|i: int|
                    0 <= i < rows@.len() ==> (#[trigger] rows@[i]).0@ == all[i].0 && rows@[i].1
                        == all[i].1,
                forall|axis: Seq<char>| #[trigger]
                    by_axis@.dom().contains(axis) <==> exists|k: int|
                        0 <= k < it.index() && (#[trigger] all[k]).0 == axis,
                forall|k: int|
                    0 <= k < it.index() ==> by_axis@[(#[trigger] all[k]).0].views(
                        all[k].1,
                        node_cap,
                    ),
        {
            let ghost i = it.index() as int;
            let ghost before = by_axis@;
            let (axis, g) = e;
            assert(axis@ == all[i].0);
            by_axis.insert(axis, PrDagAxisView::from_graph(g, node_cap));
            assert forall|x: Seq<char>| #[trigger]
                by_axis@.dom().contains(x) <==> exists|k: int|
                    0 <= k < i + 1 && (#[trigger] all[k]).0 == x by {
                if x == all[i].0 {
                } else if before.dom().contains(x) {
                    let k = choose|k: int| 0 <= k < i && (#[trigger] all[k]).0 == x;
                    assert(all[k].0 == x);
                }
            }
            assert forall|k: int| 0 <= k < i + 1 implies by_axis@[(#[trigger] all[k]).0].views(
                all[k].1,
                node_cap,
            ) by {
                if k < i {
                    crate::order::lemma_lex_irreflexive(crate::order::codes(all[k].0));
                    assert(crate::order::text_lt(all[k].0, all[i].0));
                }
            }
        }
        proof {
            assert forall|x: Seq<char>| by_axis@.dom().contains(x) == source.dom().contains(x) by {
                if source.dom().contains(x) {
                    let k = choose|k: int| 0 <= k < all.len() && (#[trigger] all[k]).0 == x;
                    assert(all[k].0 == x);
                }
            }
            assert(by_axis@.dom() =~= source.dom());
            assert forall|x: Seq<char>| #[trigger]
                by_axis@.dom().contains(x) implies by_axis@[x].views(source[x], node_cap) by {
                let k = choose|k: int| 0 <= k < all.len() && (#[trigger] all[k]).0 == x;
                lemma_lookup(all, k);
            }
        }
        PrDagPayload {
            graph,
            modified_count: counts.modified_count,
            connector_count: counts.connector_count,
            halo_count: counts.halo_count,
            deleted_count: counts.deleted_count,
            collapsed,
            by_axis,
        }
    }
}

// ---------------------------------------------------------------------
// Laws on the counts
// ---------------------------------------------------------------------

/// Law: a model that connects others is a connector whatever else it is; one
/// nearby that connects none is a halo node; of the others the deleted ones
/// are deleted, and the new and the modified ones are modified.
pub proof fn law_tier(n: PrDagNode)
    ensures
        n.is_connector ==> tier_of(n) == Tier::Connector,
        !n.is_connector && n.is_halo ==> tier_of(n) == Tier::Halo,
        !n.is_connector && !n.is_halo && n.state == PrDagState::Deleted ==> tier_of(n)
            == Tier::Deleted,
        !n.is_connector && !n.is_halo && n.state == PrDagState::New ==> tier_of(n)
            == Tier::Modified,
        !n.is_connector && !n.is_halo && n.state == PrDagState::Modified ==> tier_of(n)
            == Tier::Modified,
{
}

/// Law: a tier counts the models that are in it, each once.
pub proof fn law_tier_count(nodes: Seq<PrDagNode>, t: Tier)
    ensures
        tier_count(nodes, t) == nodes.filter(|n: PrDagNode| tier_of(n) == t).len(),
    decreases nodes.len(),
{
    reveal(Seq::filter);
    if nodes.len() > 0 {
        law_tier_count(nodes.drop_last(), t);
    }
}

/// Law: a view, and the payload as a whole, carries its graph unchanged and
/// the count of each of its tiers, and is collapsed exactly where the graph
/// has more models than the cap.
pub proof fn law_graph_views(
    v: PrDagAxisView,
    p: PrDagPayload,
    c: PrDagTierCounts,
    graph: PrDagGraph,
    cap: usize,
)
    ensures
        c.counts(graph.nodes@) <==> c.modified_count == tier_count(graph.nodes@, Tier::Modified)
            && c.connector_count == tier_count(graph.nodes@, Tier::Connector) && c.halo_count
            == tier_count(graph.nodes@, Tier::Halo) && c.deleted_count == tier_count(
            graph.nodes@,
            Tier::Deleted,
        ),
        v.views(graph, cap) ==> v.graph == graph && v.modified_count == tier_count(
            graph.nodes@,
            Tier::Modified,
        ) && v.connector_count == tier_count(graph.nodes@, Tier::Connector) && v.halo_count
            == tier_count(graph.nodes@, Tier::Halo) && v.deleted_count == tier_count(
            graph.nodes@,
            Tier::Deleted,
        ) && (v.collapsed <==> graph.nodes@.len() > cap),
        p.shows(graph, cap) ==> p.graph == graph && p.modified_count == tier_count(
            graph.nodes@,
            Tier::Modified,
        ) && p.connector_count == tier_count(graph.nodes@, Tier::Connector) && p.halo_count
            == tier_count(graph.nodes@, Tier::Halo) && p.deleted_count == tier_count(
            graph.nodes@,
            Tier::Deleted,
        ) && (p.collapsed <==> graph.nodes@.len() > cap),
{
}

} // verus!
