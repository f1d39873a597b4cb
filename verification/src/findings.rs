//! The findings of the coverage checks, as the report shows them.
use vstd::prelude::*;
use vstd::string::*;
use crate::domain::{
    first_index, lemma_first_index_is, lemma_first_index_none, CteGraph, CteNode,
    TERMINAL_NODE_NAME,
};
use crate::text::{
    after_first, behind_first, lowered, opt_str, opt_text, same_ignoring_case, same_text, split,
    split_on, texts, without_suffix,
};

verus! {

/// What is written down about a check.
#[derive(Debug, Clone, Copy, PartialEq, Eq)]
pub struct CheckSpec {
    pub id_str: &'static str,
    pub name: &'static str,
    pub group: &'static str,
    pub tier: &'static str,
    pub instrument: &'static str,
    pub conditions: &'static [&'static str],
    pub exclusions: &'static [&'static str],
    pub rationale: &'static str,
}

/// A labelled piece of evidence.
#[derive(Debug, PartialEq, Eq)]
pub struct Evidence {
    pub label: String,
    pub value: String,
}

/// Whether a construct is covered.
#[derive(Debug, Clone, Copy, PartialEq, Eq, Structural)]
pub enum VerdictStatus {
    Covered,
    Uncovered,
    Unknown,
}

/// A test that backs a verdict with less than full force, and why.
#[derive(Debug, PartialEq, Eq)]
pub struct DegradedBacking {
    pub by: String,
    pub causes: Vec<String>,
}

/// What a check found out about a construct of a model.
#[derive(Debug, PartialEq)]
pub struct Finding {
    pub check: CheckSpec,
    pub model_id: String,
    pub construct: String,
    pub status: VerdictStatus,
    pub evidence: Vec<Evidence>,
    /// What to do about it.
    pub recommendation: Option<String>,
    /// Why the finding is shown only quietly, where it is.
    pub suppressed: Option<String>,
    pub degraded: Vec<DegradedBacking>,
}

/// A finding as the report shows it: pinned to a node of the graph, its
/// sketches of givens apart from the rest of the evidence.
#[derive(Debug, PartialEq)]
pub struct FindingPayload {
    pub finding: Finding,
    pub pin_node: Option<String>,
    pub sketches: Vec<String>,
}

/// The label of evidence that is a sketch of a given.
pub const SUGGESTED_GIVEN_LABEL: &'static str = "suggested given";

/// Where the pages on the checks begin.
pub const BOOK_CHECKS_BASE: &'static str = "https://breezy-bays-labs.github.io/cute-dbt/checks/";

// ---------------------------------------------------------------------
// Pins
// ---------------------------------------------------------------------

/// The name of the first node called `name`, in any ASCII case.
pub open spec fn node_called(graph: CteGraph, name: Seq<char>) -> Option<Seq<char>> {
    match first_index(graph.nodes@, |n: CteNode| lowered(n.name@) == lowered(name)) {
        Some(i) => Some(graph.nodes@[i].name@),
        None => None,
    }
}

/// What stands in the brackets of a construct: behind its first `[`, before
/// the `]` at its end.
pub open spec fn bracketed(construct: Seq<char>) -> Option<Seq<char>> {
    match behind_first(construct, '[') {
        Some(rest) => if rest.len() > 0 && rest.last() == ']' {
            Some(rest.drop_last())
        } else {
            None
        },
        None => None,
    }
}

/// The node that the brackets of a construct name: by all of their text, else
/// by the part before the first colon.
pub open spec fn bracket_node(graph: CteGraph, name: Seq<char>) -> Option<Seq<char>> {
    match node_called(graph, name) {
        Some(n) => Some(n),
        None => {
            let head = split_on(name, ':')[0];
            if head.len() > 0 {
                node_called(graph, head)
            } else {
                None
            }
        },
    }
}

/// The node that a construct is pinned to: the one that its brackets name, if
/// the graph has it; for a construct without brackets the final select, if
/// the graph has one.
pub open spec fn pin_of(graph: CteGraph, construct: Seq<char>) -> Option<Seq<char>> {
    match bracketed(construct) {
        Some(name) => bracket_node(graph, name),
        None => node_called(graph, TERMINAL_NODE_NAME@),
    }
}

fn node_named(graph: &CteGraph, name: &str) -> (r: Option<String>)
    ensures
        opt_text(r) == node_called(*graph, name@),
{
    let ghost p = |n: CteNode| lowered(n.name@) == lowered(name@);
    let mut i: usize = 0;
    while i < graph.nodes.len()
        invariant
            i <= graph.nodes@.len(),
            p == (|n: CteNode| lowered(n.name@) == lowered(name@)),
            forall|j: int| 0 <= j < i ==> !p(#[trigger] graph.nodes@[j]),
        decreases graph.nodes@.len() - i,
    {
        if same_ignoring_case(graph.nodes[i].name.as_str(), name) {
            proof {
                assert(p(graph.nodes@[i as int]));
                lemma_first_index_is(graph.nodes@, p, i as int);
            }
            return Some(graph.nodes[i].name.clone());
        }
        i += 1;
    }
    proof {
        lemma_first_index_none(graph.nodes@, p);
    }
    None
}

fn inside_brackets<'a>(construct: &'a str) -> (r: Option<&'a str>)
    ensures
        opt_str(r) == bracketed(construct@),
{
    match after_first(construct, '[') {
        Some(rest) => {
            proof {
                reveal_strlit("]");
                let s = rest@;
                if s.len() > 0 && s.last() == ']' {
                    assert("]"@ == s.subrange(s.len() - 1, s.len() as int));
                }
                if "]"@.is_suffix_of(s) {
                    assert(s.subrange(s.len() - 1, s.len() as int)[0] == ']');
                    assert(s.take(s.len() - 1) == s.drop_last());
                }
            }
            without_suffix(rest, "]")
        },
        None => None,
    }
}

/// The node that a construct is pinned to: the one that its brackets name; the
/// final select for a construct of the model as a whole, which has none.
/// `None` where the graph does not have that node.
pub fn resolve_pin_node(graph: &CteGraph, construct: &str) -> (r: Option<String>)
    ensures
        opt_text(r) == pin_of(*graph, construct@),
{
    let name: &str = match inside_brackets(construct) {
        Some(name) => name,
        None => {
            return node_named(graph, TERMINAL_NODE_NAME);
        },
    };
    if let Some(n) = node_named(graph, name) {
        return Some(n);
    }
    let parts: Vec<String> = split(name, ':');
    assert(texts(parts@)[0] == parts@[0]@);
    if parts[0].as_str().is_empty() {
        None
    } else {
        node_named(graph, parts[0].as_str())
    }
}

// ---------------------------------------------------------------------
// Payloads
// ---------------------------------------------------------------------

/// `e` is a sketch of a given.
pub open spec fn is_sketch(e: Evidence) -> bool {
    e.label@ == SUGGESTED_GIVEN_LABEL@
}

/// `p` shows the finding `f`: pinned to a node, the sketches among its
/// evidence moved apart, everything else as it was.
pub open spec fn shows_finding(p: FindingPayload, f: Finding, graph: CteGraph) -> bool {
    &&& p.finding.check == f.check
    &&& p.finding.model_id == f.model_id
    &&& p.finding.construct == f.construct
    &&& p.finding.status == f.status
    &&& p.finding.recommendation == f.recommendation
    &&& p.finding.suppressed == f.suppressed
    &&& p.finding.degraded == f.degraded
    &&& p.finding.evidence@ == f.evidence@.filter(|e: Evidence| !is_sketch(e))
    &&& texts(p.sketches@) == f.evidence@.filter(|e: Evidence| is_sketch(e)).map_values(
        |e: Evidence| e.value@,
    )
    &&& opt_text(p.pin_node) == pin_of(graph, f.construct@)
}

/// A finding as the report shows it.
pub fn finding_payload(graph: &CteGraph, finding: Finding) -> (r: FindingPayload)
    ensures
        shows_finding(r, finding, *graph),
{
    let pin_node: Option<String> = resolve_pin_node(graph, finding.construct.as_str());
    let Finding {
        check,
        model_id,
        construct,
        status,
        evidence,
        recommendation,
        suppressed,
        degraded,
    } = finding;
    let ghost all = evidence@;
    let ghost sketch = |e: Evidence| is_sketch(e);
    let ghost plain = |e: Evidence| !is_sketch(e);
    let ghost value = |e: Evidence| e.value@;
    let mut kept: Vec<Evidence> = Vec::new();
    let mut sketches: Vec<String> = Vec::new();
    proof {
        reveal(Seq::filter);
        assert(all.take(0) == Seq::<Evidence>::empty());
        assert(texts(sketches@) == all.take(0).filter(sketch).map_values(value));
    }
    for e in it: evidence
        invariant
            it.seq() == all,
            sketch == (|e: Evidence| is_sketch(e)),
            plain == (|e: Evidence| !is_sketch(e)),
            value == (|e: Evidence| e.value@),
            kept@ == all.take(it.index() as int).filter(plain),
            texts(sketches@) == all.take(it.index() as int).filter(sketch).map_values(value),
    {
        let ghost i = it.index() as int;
        proof {
            reveal(Seq::filter);
            assert(all.take(i + 1).drop_last() == all.take(i));
            assert(all.take(i + 1).last() == e);
        }
        let ghost before = sketches@;
        if same_text(e.label.as_str(), SUGGESTED_GIVEN_LABEL) {
            sketches.push(e.value);
            assert(texts(sketches@) == texts(before).push(value(e)));
            assert(all.take(i + 1).filter(sketch).map_values(value) == all.take(i).filter(
                sketch,
            ).map_values(value).push(value(e)));
        } else {
            kept.push(e);
        }
    }
    assert(all.take(all.len() as int) == all);
    FindingPayload {
        finding: Finding {
            check,
            model_id,
            construct,
            status,
            evidence: kept,
            recommendation,
            suppressed,
            degraded,
        },
        pin_node,
        sketches,
    }
}

/// Law: showing a finding neither loses evidence nor shows any twice.
pub proof fn law_evidence_partitioned(p: FindingPayload, f: Finding, graph: CteGraph)
    requires
        shows_finding(p, f, graph),
    ensures
        p.finding.evidence@.len() + p.sketches@.len() == f.evidence@.len(),
        forall|i: int|
            0 <= i < p.finding.evidence@.len() ==> !is_sketch(#[trigger] p.finding.evidence@[i]),
{
    lemma_partition_len(f.evidence@);
    let plain = |e: Evidence| !is_sketch(e);
    assert(texts(p.sketches@).len() == p.sketches@.len());
    assert forall|i: int| 0 <= i < p.finding.evidence@.len() implies !is_sketch(
        #[trigger] p.finding.evidence@[i],
    ) by {
        f.evidence@.lemma_filter_pred(plain, i);
    }
}

proof fn lemma_partition_len(v: Seq<Evidence>)
    ensures
        v.filter(|e: Evidence| !is_sketch(e)).len() + v.filter(|e: Evidence| is_sketch(e)).len()
            == v.len(),
    decreases v.len(),
{
    reveal(Seq::filter);
    if v.len() > 0 {
        lemma_partition_len(v.drop_last());
    }
}

/// A check as the report explains it.
#[derive(Debug, PartialEq, Eq)]
pub struct CheckSpecPayload {
    pub name: &'static str,
    pub group: &'static str,
    pub tier: &'static str,
    pub instrument: &'static str,
    pub conditions: &'static [&'static str],
    pub exclusions: &'static [&'static str],
    pub rationale: &'static str,
    /// The address of the page on the check.
    pub book_href: String,
}

/// `p` explains the check `spec`.
pub open spec fn explains(p: CheckSpecPayload, spec: CheckSpec) -> bool {
    &&& p.name == spec.name
    &&& p.group == spec.group
    &&& p.tier == spec.tier
    &&& p.instrument == spec.instrument
    &&& p.conditions == spec.conditions
    &&& p.exclusions == spec.exclusions
    &&& p.rationale == spec.rationale
    &&& p.book_href@ == BOOK_CHECKS_BASE@ + spec.id_str@ + ".html"@
}

/// A check as the report explains it, with the address of its page.
pub fn check_spec_payload(spec: CheckSpec) -> (r: CheckSpecPayload)
    ensures
        explains(r, spec),
{
    let mut book_href: String = BOOK_CHECKS_BASE.to_owned();
    book_href.append(spec.id_str);
    book_href.append(".html");
    CheckSpecPayload {
        name: spec.name,
        group: spec.group,
        tier: spec.tier,
        instrument: spec.instrument,
        conditions: spec.conditions,
        exclusions: spec.exclusions,
        rationale: spec.rationale,
        book_href,
    }
}

// ---------------------------------------------------------------------
// Laws on pins and payloads
// ---------------------------------------------------------------------

/// The node at position `i` has the name, in any case.
pub open spec fn called_at(graph: CteGraph, i: int, name: Seq<char>) -> bool {
    lowered(graph.nodes@[i].name@) == lowered(name)
}

/// Law: a name is that of the first node that has it, in any case, as that
/// node writes it; there is one wherever a node has it.
pub proof fn law_node_called(graph: CteGraph, name: Seq<char>, i: int)
    requires
        0 <= i < graph.nodes@.len(),
    ensures
        called_at(graph, i, name) && (forall|j: int|
            0 <= j < i ==> !#[trigger] called_at(graph, j, name)) ==> node_called(graph, name)
            == Some(graph.nodes@[i].name@),
        node_called(graph, name) is None ==> !called_at(graph, i, name),
{
    let p = |n: CteNode| lowered(n.name@) == lowered(name);
    crate::domain::lemma_first_index(graph.nodes@, p);
    if called_at(graph, i, name) && (forall|j: int|
        0 <= j < i ==> !#[trigger] called_at(graph, j, name)) {
        assert forall|j: int| 0 <= j < i implies !p(#[trigger] graph.nodes@[j]) by {
            assert(!called_at(graph, j, name));
        }
        lemma_first_index_is(graph.nodes@, p, i);
    }
}

/// Law: a graph without a node of the name has none called so.
pub proof fn law_node_not_called(graph: CteGraph, name: Seq<char>)
    requires
        forall|i: int| 0 <= i < graph.nodes@.len() ==> !#[trigger] called_at(graph, i, name),
    ensures
        node_called(graph, name) is None,
{
    let p = |n: CteNode| lowered(n.name@) == lowered(name);
    assert forall|j: int| 0 <= j < graph.nodes@.len() implies !p(#[trigger] graph.nodes@[j]) by {
        assert(!called_at(graph, j, name));
    }
    lemma_first_index_none(graph.nodes@, p);
}

/// Law: a construct that ends in brackets is pinned to the node that their
/// whole text names; else to the one that the part before their first colon
/// names, unless that is empty; else to none. A construct without brackets at
/// its end is pinned to the final select.
pub proof fn law_pin(
    graph: CteGraph,
    before: Seq<char>,
    name: Seq<char>,
    head: Seq<char>,
    tail: Seq<char>,
    whole: Seq<char>,
)
    requires
        !before.contains('['),
        !head.contains(':'),
    ensures
        node_called(graph, name) is Some ==> pin_of(graph, before + seq!['['] + name + seq![']'])
            == node_called(graph, name),
        node_called(graph, head + seq![':'] + tail) is None && head.len() > 0 ==> pin_of(
            graph,
            before + seq!['['] + (head + seq![':'] + tail) + seq![']'],
        ) == node_called(graph, head),
        node_called(graph, seq![':'] + tail) is None ==> pin_of(
            graph,
            before + seq!['['] + (seq![':'] + tail) + seq![']'],
        ) is None,
        node_called(graph, head) is None ==> pin_of(graph, before + seq!['['] + head + seq![']'])
            is None,
        !whole.contains('[') ==> pin_of(graph, whole) == node_called(graph, "(final select)"@),
        whole.len() > 0 && whole.last() != ']' ==> pin_of(graph, before + seq!['['] + whole)
            == node_called(graph, "(final select)"@),
{
    lemma_bracketed(before, name);
    lemma_bracketed(before, head);
    let q = head + seq![':'] + tail;
    let r = seq![':'] + tail;
    lemma_bracketed(before, q);
    lemma_bracketed(before, r);
    lemma_first_piece(head, tail);
    let none = Seq::<char>::empty();
    lemma_first_piece(none, tail);
    assert(none + seq![':'] + tail == r);
    crate::text::law_split_step(none, head, ':');
    if !whole.contains('[') {
        crate::text::law_behind_first(whole, none, '[');
    }
    crate::text::law_behind_first(before, whole, '[');
}

proof fn lemma_bracketed(before: Seq<char>, name: Seq<char>)
    requires
        !before.contains('['),
    ensures
        bracketed(before + seq!['['] + name + seq![']']) == Some(name),
{
    let rest = name + seq![']'];
    crate::text::law_behind_first(before, rest, '[');
    assert(before + seq!['['] + name + seq![']'] == before + seq!['['] + rest);
    assert(rest.drop_last() == name);
}

proof fn lemma_first_piece(head: Seq<char>, tail: Seq<char>)
    requires
        !head.contains(':'),
    ensures
        split_on(head + seq![':'] + tail, ':')[0] == head,
        split_on(head + seq![':'] + tail, ':').len() >= 2,
    decreases tail.len(),
{
    let all = head + seq![':'] + tail;
    if tail.len() == 0 {
        crate::text::law_split_step(head, tail, ':');
        assert(head + seq![':'] == all);
        crate::text::law_split_step(Seq::empty(), head, ':');
    } else {
        lemma_first_piece(head, tail.drop_last());
        assert(all.drop_last() == head + seq![':'] + tail.drop_last());
    }
}

/// Law: a finding is shown as it is, but for its evidence: what is labelled as
/// a suggested given comes apart as its value, the rest stays, each in order.
pub proof fn law_finding_shown(p: FindingPayload, f: Finding, graph: CteGraph)
    requires
        shows_finding(p, f, graph),
    ensures
        p.finding.check == f.check,
        p.finding.model_id == f.model_id,
        p.finding.construct == f.construct,
        p.finding.status == f.status,
        p.finding.recommendation == f.recommendation,
        p.finding.suppressed == f.suppressed,
        p.finding.degraded == f.degraded,
        p.finding.evidence@ == f.evidence@.filter(|e: Evidence| e.label@ != "suggested given"@),
        texts(p.sketches@) == f.evidence@.filter(
            |e: Evidence| e.label@ == "suggested given"@,
        ).map_values(|e: Evidence| e.value@),
        opt_text(p.pin_node) == pin_of(graph, f.construct@),
{
    let a = |e: Evidence| !is_sketch(e);
    let b = |e: Evidence| e.label@ != "suggested given"@;
    let c = |e: Evidence| is_sketch(e);
    let d = |e: Evidence| e.label@ == "suggested given"@;
    assert(a =~= b);
    assert(c =~= d);
}

/// Law: a check is explained by what is written down about it and the address
/// of its page.
pub proof fn law_check_explained(p: CheckSpecPayload, spec: CheckSpec)
    requires
        explains(p, spec),
    ensures
        p.name == spec.name,
        p.group == spec.group,
        p.tier == spec.tier,
        p.instrument == spec.instrument,
        p.conditions == spec.conditions,
        p.exclusions == spec.exclusions,
        p.rationale == spec.rationale,
        p.book_href@ == "https://breezy-bays-labs.github.io/cute-dbt/checks/"@ + spec.id_str@
            + ".html"@,
{
}

} // verus!
