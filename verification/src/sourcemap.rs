//! The source map of a model: which spans of its raw and compiled text belong
//! to which node, column or control zone, and its projection into the report.
use vstd::prelude::*;
use vstd::string::*;
use vstd::utf8::*;
use crate::anchor::{compiled_span, resolve_zone_compiled};
use crate::domain::{ColumnSpan, CteGraph, CteNode};
use crate::jinja::{locate_raw_zones, text_zones, ZoneFact, ZoneKind};
use crate::span::{byte_span, get_slice, lemma_text_bytes, sliceable, span_at, SourcePos, SourceSpan};
use crate::table::{keys_ascend, StrMap};
use crate::text::opt_text;

verus! {

/// What a span of a model's text stands for.
#[allow(inconsistent_fields)]
#[derive(Debug, PartialEq)]
pub enum SpanRole {
    /// The body of a node of the CTE graph.
    CteBody { node_id: String },
    /// A column of a node.
    Column { node_id: String, column: String },
    /// A Jinja control zone.
    Zone { kind: ZoneKind },
}

/// One entry of a source map: a role with its span in the raw and in the
/// compiled text, as far as it has one.
#[derive(Debug, PartialEq)]
pub struct SourceMapEntry {
    pub role: SpanRole,
    pub raw: Option<SourceSpan>,
    pub compiled: Option<SourceSpan>,
}

/// The compiled text of a model with its entries.
#[derive(Debug, PartialEq)]
pub struct SourceMap {
    pub compiled: String,
    pub entries: Vec<SourceMapEntry>,
}

// ---------------------------------------------------------------------
// The map of a graph
// ---------------------------------------------------------------------

/// The entry of a node's body.
pub open spec fn body_entry(n: CteNode) -> SourceMapEntry {
    SourceMapEntry {
        role: SpanRole::CteBody { node_id: n.name },
        raw: None,
        compiled: n.span,
    }
}

/// The entry of a column.
pub open spec fn column_entry(c: ColumnSpan) -> SourceMapEntry {
    SourceMapEntry {
        role: SpanRole::Column { node_id: c.node, column: c.column },
        raw: None,
        compiled: c.span,
    }
}

/// `e` is the entry of a final select that is all of a text with the bytes
/// `b`.
pub open spec fn is_whole_entry(e: SourceMapEntry, terminal: Seq<char>, b: Seq<u8>) -> bool {
    &&& e.role matches SpanRole::CteBody { node_id } && node_id@ == terminal
    &&& e.raw is None
    &&& e.compiled == Some(span_at(b, 0, b.len() as int))
}

/// `sm` is the source map of a graph: an entry for each node and each column;
/// for a graph without nodes, the final select is all of the text.
pub open spec fn is_graph_map(
    sm: SourceMap,
    graph: CteGraph,
    compiled: Seq<char>,
    terminal: Seq<char>,
) -> bool {
    let columns = graph.column_spans@.map_values(|c: ColumnSpan| column_entry(c));
    &&& sm.compiled@ == compiled
    &&& if graph.nodes@.len() == 0 {
        &&& sm.entries@.len() == 1 + columns.len()
        &&& is_whole_entry(sm.entries@[0], terminal, encode_utf8(compiled))
        &&& sm.entries@.skip(1) == columns
    } else {
        sm.entries@ == graph.nodes@.map_values(|n: CteNode| body_entry(n)) + columns
    }
}

impl SourceMap {
    /// The source map of a graph over its compiled code; `None` where there is
    /// no compiled code.
    pub fn from_cte_graph(graph: &CteGraph, compiled: &str, terminal: &str) -> (r: Option<Self>)
        ensures
            r is Some <==> compiled@.len() > 0,
            r matches Some(sm) ==> is_graph_map(sm, *graph, compiled@, terminal@),
    {
        if compiled.is_empty() {
            return None;
        }
        let ghost body = |n: CteNode| body_entry(n);
        let ghost column = |c: ColumnSpan| column_entry(c);
        let mut entries: Vec<SourceMapEntry> = Vec::new();
        if graph.nodes.len() == 0 {
            proof {
                lemma_text_bytes(compiled);
                is_char_boundary_start_end_of_seq(compiled.spec_bytes());
            }
            entries.push(
                SourceMapEntry {
                    role: SpanRole::CteBody { node_id: terminal.to_owned() },
                    raw: None,
                    compiled: byte_span(compiled, 0, compiled.as_bytes().len()),
                },
            );
        }
        let ghost whole = entries@;
        let mut i: usize = 0;
        assert(whole + graph.nodes@.take(0).map_values(body) == whole);
        while i < graph.nodes.len()
            invariant
                i <= graph.nodes@.len(),
                body == (|n: CteNode| body_entry(n)),
                entries@ == whole + graph.nodes@.take(i as int).map_values(body),
            decreases graph.nodes@.len() - i,
        {
            let node: &CteNode = &graph.nodes[i];
            entries.push(
                SourceMapEntry {
                    role: SpanRole::CteBody { node_id: node.name.clone() },
                    raw: None,
                    compiled: node.span,
                },
            );
            assert(entries@ == whole + graph.nodes@.take(i as int + 1).map_values(body));
            i += 1;
        }
        assert(graph.nodes@.take(i as int) == graph.nodes@);
        let ghost bodies = entries@;
        let mut k: usize = 0;
        assert(bodies + graph.column_spans@.take(0).map_values(column) == bodies);
        while k < graph.column_spans.len()
            invariant
                k <= graph.column_spans@.len(),
                column == (|c: ColumnSpan| column_entry(c)),
                entries@ == bodies + graph.column_spans@.take(k as int).map_values(column),
            decreases graph.column_spans@.len() - k,
        {
            let c: &ColumnSpan = &graph.column_spans[k];
            entries.push(
                SourceMapEntry {
                    role: SpanRole::Column { node_id: c.node.clone(), column: c.column.clone() },
                    raw: None,
                    compiled: c.span,
                },
            );
            assert(entries@ == bodies + graph.column_spans@.take(k as int + 1).map_values(column));
            k += 1;
        }
        proof {
            assert(graph.column_spans@.take(k as int) == graph.column_spans@);
            let columns = graph.column_spans@.map_values(column);
            if graph.nodes@.len() == 0 {
                assert(bodies == whole);
                assert(entries@.skip(1) == columns);
            } else {
                assert(whole + graph.nodes@.map_values(body) == graph.nodes@.map_values(body));
            }
        }
        Some(SourceMap { compiled: compiled.to_owned(), entries })
    }
}

// ---------------------------------------------------------------------
// Zone entries
// ---------------------------------------------------------------------

/// The entry of a zone.
pub open spec fn zone_entry(raw: Seq<u8>, zone: ZoneFact, compiled: Seq<u8>) -> SourceMapEntry {
    SourceMapEntry {
        role: SpanRole::Zone { kind: zone.kind },
        raw: Some(zone.raw_span),
        compiled: compiled_span(raw, zone.raw_span, compiled),
    }
}

/// Appends one entry for each control zone of `raw`, with the span in
/// `compiled` that the zone binds to.
pub fn append_zone_entries(sm: &mut SourceMap, raw: &str, compiled: &str)
    ensures
        final(sm).compiled == old(sm).compiled,
        final(sm).entries@ == old(sm).entries@ + text_zones(raw.spec_bytes()).map_values(
            |z: ZoneFact| zone_entry(raw.spec_bytes(), z, compiled.spec_bytes()),
        ),
{
    let zones: Vec<ZoneFact> = locate_raw_zones(raw);
    let ghost start = sm.entries@;
    let ghost f = |z: ZoneFact| zone_entry(raw.spec_bytes(), z, compiled.spec_bytes());
    let mut i: usize = 0;
    while i < zones.len()
        invariant
            i <= zones@.len(),
            f == (|z: ZoneFact| zone_entry(raw.spec_bytes(), z, compiled.spec_bytes())),
            sm.compiled == old(sm).compiled,
            sm.entries@ == start + zones@.take(i as int).map_values(f),
        decreases zones@.len() - i,
    {
        let zone: ZoneFact = zones[i];
        let span: Option<SourceSpan> = resolve_zone_compiled(raw, &zone.raw_span, compiled);
        sm.entries.push(
            SourceMapEntry {
                role: SpanRole::Zone { kind: zone.kind },
                raw: Some(zone.raw_span),
                compiled: span,
            },
        );
        assert(sm.entries@ == start + zones@.take(i as int + 1).map_values(f));
        i += 1;
    }
    assert(zones@.take(i as int) == zones@);
}

// ---------------------------------------------------------------------
// Spans by node and by column
// ---------------------------------------------------------------------

/// The text between the two parts of a column key.
pub open spec fn key_separator() -> Seq<char> {
    "\u{1f}"@
}

/// The key of an entry among the columns or among the nodes, if it is one.
pub open spec fn entry_key(e: SourceMapEntry, columns: bool) -> Option<Seq<char>> {
    match e.role {
        SpanRole::CteBody { node_id } => if columns {
            None
        } else {
            Some(node_id@)
        },
        SpanRole::Column { node_id, column } => if columns {
            Some(node_id@ + key_separator() + column@)
        } else {
            None
        },
        SpanRole::Zone { .. } => None,
    }
}

/// The span of an entry in the raw or in the compiled text.
pub open spec fn side(e: SourceMapEntry, raw: bool) -> Option<SourceSpan> {
    if raw {
        e.raw
    } else {
        e.compiled
    }
}

/// The spans of the column entries, or of the node entries, by key; of two
/// entries with the same key the later one counts.
pub open spec fn spans_by_key(entries: Seq<SourceMapEntry>, columns: bool, raw: bool) -> Map<
    Seq<char>,
    SourceSpan,
>
    decreases entries.len(),
{
    if entries.len() == 0 {
        Map::empty()
    } else {
        let head = spans_by_key(entries.drop_last(), columns, raw);
        match (entry_key(entries.last(), columns), side(entries.last(), raw)) {
            (Some(key), Some(span)) => head.insert(key, span),
            _ => head,
        }
    }
}

/// The key of an entry among the columns or among the nodes, if it is one.
fn key_of(e: &SourceMapEntry, columns: bool) -> (r: Option<String>)
    ensures
        opt_text(r) == entry_key(*e, columns),
{
    match &e.role {
        SpanRole::CteBody { node_id } => if columns {
            None
        } else {
            Some(node_id.clone())
        },
        SpanRole::Column { node_id, column } => if columns {
            let mut key: String = node_id.clone();
            key.append("\u{1f}");
            key.append(column.as_str());
            Some(key)
        } else {
            None
        },
        SpanRole::Zone { kind: _ } => None,
    }
}

/// The spans of the column entries, or of the node entries, by key.
pub fn collect_spans(entries: &Vec<SourceMapEntry>, columns: bool, raw: bool) -> (r: StrMap<
    SourceSpan,
>)
    ensures
        r@ == spans_by_key(entries@, columns, raw),
{
    let mut out: StrMap<SourceSpan> = StrMap::new();
    let mut i: usize = 0;
    assert(entries@.take(0) == Seq::<SourceMapEntry>::empty());
    while i < entries.len()
        invariant
            i <= entries@.len(),
            out@ == spans_by_key(entries@.take(i as int), columns, raw),
        decreases entries@.len() - i,
    {
        assert(entries@.take(i as int + 1).drop_last() == entries@.take(i as int));
        assert(entries@.take(i as int + 1).last() == entries@[i as int]);
        let e: &SourceMapEntry = &entries[i];
        let span: Option<SourceSpan> = if raw {
            e.raw
        } else {
            e.compiled
        };
        if let Some(key) = key_of(e, columns) {
            if let Some(s) = span {
                out.insert(key, s);
            }
        }
        i += 1;
    }
    assert(entries@.take(i as int) == entries@);
    out
}

/// A key has a span exactly where an entry with that key has one.
pub proof fn lemma_span_keys(entries: Seq<SourceMapEntry>, columns: bool, raw: bool, k: Seq<char>)
    ensures
        spans_by_key(entries, columns, raw).dom().contains(k) <==> exists|i: int|
            0 <= i < entries.len() && entry_key(#[trigger] entries[i], columns) == Some(k) && side(
                entries[i],
                raw,
            ) is Some,
    decreases entries.len(),
{
    if entries.len() > 0 {
        let head = entries.drop_last();
        lemma_span_keys(head, columns, raw, k);
        if spans_by_key(head, columns, raw).dom().contains(k) {
            let i = choose|i: int|
                0 <= i < head.len() && entry_key(#[trigger] head[i], columns) == Some(k) && side(
                    head[i],
                    raw,
                ) is Some;
            assert(entries[i] == head[i]);
        }
        if exists|i: int|
            0 <= i < entries.len() && entry_key(#[trigger] entries[i], columns) == Some(k) && side(
                entries[i],
                raw,
            ) is Some {
            let i = choose|i: int|
                0 <= i < entries.len() && entry_key(#[trigger] entries[i], columns) == Some(k)
                    && side(entries[i], raw) is Some;
            if i < head.len() {
                assert(head[i] == entries[i]);
            }
        }
        assert(entries[entries.len() - 1] == entries.last());
    }
}

/// `e` with a raw span: its own, else the one that `located` has for its key.
pub open spec fn with_raw(e: SourceMapEntry, located: Map<Seq<char>, SourceSpan>) -> SourceMapEntry {
    let key = match entry_key(e, false) {
        Some(k) => Some(k),
        None => entry_key(e, true),
    };
    match (e.raw, key) {
        (None, Some(k)) => if located.dom().contains(k) {
            SourceMapEntry { role: e.role, raw: Some(located[k]), compiled: e.compiled }
        } else {
            e
        },
        _ => e,
    }
}

/// Gives each node and column that has no raw span yet the one that was
/// located for it: by node id, or by node id and column.
pub fn fill_raw_spans(sm: &mut SourceMap, located: &StrMap<SourceSpan>)
    ensures
        final(sm).compiled == old(sm).compiled,
        final(sm).entries@ == old(sm).entries@.map_values(
            |e: SourceMapEntry| with_raw(e, located@),
        ),
{
    let ghost f = |e: SourceMapEntry| with_raw(e, located@);
    let ghost all = sm.entries@;
    let mut rest: Vec<SourceMapEntry> = Vec::new();
    std::mem::swap(&mut rest, &mut sm.entries);
    let mut out: Vec<SourceMapEntry> = Vec::new();
    assert(out@ == all.take(0).map_values(f));
    for e in it: rest
        invariant
            it.seq() == all,
            f == (|e: SourceMapEntry| with_raw(e, located@)),
            out@ == all.take(it.index() as int).map_values(f),
    {
        let ghost i = it.index() as int;
        let key: Option<String> = match key_of(&e, false) {
            Some(k) => Some(k),
            None => key_of(&e, true),
        };
        let mut raw: Option<SourceSpan> = e.raw;
        if raw.is_none() {
            if let Some(k) = key {
                if let Some(span) = located.get(k.as_str()) {
                    raw = Some(*span);
                }
            }
        }
        let filled: SourceMapEntry = SourceMapEntry { role: e.role, raw, compiled: e.compiled };
        assert(filled == f(all[i]));
        out.push(filled);
        assert(out@ == all.take(i + 1).map_values(f));
    }
    assert(all.take(all.len() as int) == all);
    sm.entries = out;
}

impl SourceMap {
    /// The compiled spans of the node bodies, by node id.
    pub fn node_spans(&self) -> (r: StrMap<SourceSpan>)
        ensures
            r@ == spans_by_key(self.entries@, false, false),
    {
        collect_spans(&self.entries, false, false)
    }
}

// ---------------------------------------------------------------------
// Zones in the report
// ---------------------------------------------------------------------

/// A control zone as the report shows it: its kind and raw span, whether it
/// is present in the compiled text, and the node that it belongs to there.
#[derive(Debug, PartialEq)]
pub struct RawZonePayload {
    pub kind: ZoneKind,
    pub start: SourcePos,
    pub end: SourcePos,
    pub presence: &'static str,
    pub node_id: Option<String>,
}

/// `inner` lies within `outer` and is not the same range.
pub open spec fn strictly_inside(inner: SourceSpan, outer: SourceSpan) -> bool {
    outer.covers(inner) && !(inner.start.byte == outer.start.byte && inner.end.byte
        == outer.end.byte)
}

/// Whether and how a zone is present in the compiled text: pruned where it
/// has no compiled span, structural where its span lies strictly within a
/// node's body, else plainly compiled.
pub open spec fn presence_of(
    compiled: Option<SourceSpan>,
    bodies: Seq<(Seq<char>, SourceSpan)>,
) -> Seq<char> {
    match compiled {
        None => "compiled_out"@,
        Some(c) => if exists|k: int|
            0 <= k < bodies.len() && strictly_inside(c, (#[trigger] bodies[k]).1) {
            "structural"@
        } else {
            "compiled_in"@
        },
    }
}

/// The position of the narrowest of `bodies` that covers `c`; of several such
/// the first.
pub open spec fn narrowest(bodies: Seq<(Seq<char>, SourceSpan)>, c: SourceSpan) -> Option<int>
    decreases bodies.len(),
{
    if bodies.len() == 0 {
        None
    } else {
        let n = bodies.len() - 1;
        let head = narrowest(bodies.drop_last(), c);
        if !bodies[n].1.covers(c) {
            head
        } else {
            match head {
                None => Some(n),
                Some(k) => if bodies[n].1.width() < bodies[k].1.width() {
                    Some(n)
                } else {
                    head
                },
            }
        }
    }
}

/// The node that a zone with the span `compiled` belongs to.
pub open spec fn owner_of(
    compiled: Option<SourceSpan>,
    bodies: Seq<(Seq<char>, SourceSpan)>,
) -> Option<Seq<char>> {
    match compiled {
        None => None,
        Some(c) => match narrowest(bodies, c) {
            Some(k) => Some(bodies[k].0),
            None => None,
        },
    }
}

proof fn lemma_narrowest_in(bodies: Seq<(Seq<char>, SourceSpan)>, c: SourceSpan)
    ensures
        narrowest(bodies, c) matches Some(k) ==> 0 <= k < bodies.len() && bodies[k].1.covers(c),
    decreases bodies.len(),
{
    if bodies.len() > 0 {
        lemma_narrowest_in(bodies.drop_last(), c);
    }
}

/// The id of the node with the narrowest span around `compiled`; `None` where
/// no node's span covers it.
pub fn owning_node_id(node_spans: &StrMap<SourceSpan>, compiled: &SourceSpan) -> (r: Option<String>)
    ensures
        opt_text(r) == owner_of(Some(*compiled), node_spans.entries()),
{
    let ghost bodies = node_spans.entries();
    let n: usize = node_spans.len();
    let mut best: Option<usize> = None;
    let mut best_width: u32 = 0;
    let mut i: usize = 0;
    assert(bodies.take(0) == Seq::<(Seq<char>, SourceSpan)>::empty());
    while i < n
        invariant
            i <= n == bodies.len(),
            bodies == node_spans.entries(),
            match best {
                Some(k) => narrowest(bodies.take(i as int), *compiled) == Some(k as int) && k < i
                    && best_width == bodies[k as int].1.width(),
                None => narrowest(bodies.take(i as int), *compiled) is None,
            },
        decreases n - i,
    {
        assert(bodies.take(i as int + 1).drop_last() == bodies.take(i as int));
        let span: &SourceSpan = node_spans.value_at(i);
        if span.contains_range(compiled) {
            let width: u32 = if span.end.byte >= span.start.byte {
                span.end.byte - span.start.byte
            } else {
                0
            };
            match best {
                None => {
                    best = Some(i);
                    best_width = width;
                },
                Some(_) => {
                    if width < best_width {
                        best = Some(i);
                        best_width = width;
                    }
                },
            }
        }
        i += 1;
    }
    assert(bodies.take(i as int) == bodies);
    match best {
        Some(k) => Some(node_spans.key_at(k).clone()),
        None => None,
    }
}

/// Whether and how a zone with the compiled span `compiled` is present.
fn zone_presence(compiled: Option<SourceSpan>, node_spans: &StrMap<SourceSpan>) -> (r: &'static str)
    ensures
        r@ == presence_of(compiled, node_spans.entries()),
{
    let c: SourceSpan = match compiled {
        None => {
            return "compiled_out";
        },
        Some(c) => c,
    };
    let ghost bodies = node_spans.entries();
    let n: usize = node_spans.len();
    let mut i: usize = 0;
    while i < n
        invariant
            i <= n == bodies.len(),
            bodies == node_spans.entries(),
            compiled == Some(c),
            forall|k: int| 0 <= k < i ==> !strictly_inside(c, (#[trigger] bodies[k]).1),
        decreases n - i,
    {
        let span: &SourceSpan = node_spans.value_at(i);
        if span.contains_range(&c) && !(c.start.byte == span.start.byte && c.end.byte
            == span.end.byte) {
            assert(strictly_inside(c, bodies[i as int].1));
            return "structural";
        }
        i += 1;
    }
    "compiled_in"
}

/// An entry that is shown as a zone.
pub open spec fn shown_zone(e: SourceMapEntry) -> bool {
    e.role is Zone && e.raw is Some
}

/// `p` shows the zone entry `e`.
pub open spec fn shows_zone(
    p: RawZonePayload,
    e: SourceMapEntry,
    bodies: Seq<(Seq<char>, SourceSpan)>,
) -> bool {
    &&& e.role == SpanRole::Zone { kind: p.kind }
    &&& e.raw == Some(SourceSpan { start: p.start, end: p.end })
    &&& p.presence@ == presence_of(e.compiled, bodies)
    &&& opt_text(p.node_id) == owner_of(e.compiled, bodies)
}

/// `out` shows the zones among `entries`, in order.
pub open spec fn shows_zones(
    out: Seq<RawZonePayload>,
    entries: Seq<SourceMapEntry>,
    bodies: Seq<(Seq<char>, SourceSpan)>,
) -> bool {
    let zones = entries.filter(|e: SourceMapEntry| shown_zone(e));
    &&& out.len() == zones.len()
    &&& forall|k: int| 0 <= k < out.len() ==> shows_zone(#[trigger] out[k], zones[k], bodies)
}

/// The zones of a source map as the report shows them. A zone without a raw
/// span is left out.
pub fn gather_raw_zones(sm: &SourceMap, node_spans: &StrMap<SourceSpan>) -> (r: Vec<RawZonePayload>)
    ensures
        shows_zones(r@, sm.entries@, node_spans.entries()),
{
    let ghost p = |e: SourceMapEntry| shown_zone(e);
    let ghost bodies = node_spans.entries();
    let mut out: Vec<RawZonePayload> = Vec::new();
    let mut i: usize = 0;
    proof {
        reveal(Seq::filter);
        assert(sm.entries@.take(0) == Seq::<SourceMapEntry>::empty());
    }
    while i < sm.entries.len()
        invariant
            i <= sm.entries@.len(),
            p == (|e: SourceMapEntry| shown_zone(e)),
            bodies == node_spans.entries(),
            shows_zones(out@, sm.entries@.take(i as int), bodies),
        decreases sm.entries@.len() - i,
    {
        let e: &SourceMapEntry = &sm.entries[i];
        proof {
            reveal(Seq::filter);
            assert(sm.entries@.take(i as int + 1).drop_last() == sm.entries@.take(i as int));
            assert(sm.entries@.take(i as int + 1).last() == *e);
        }
        if let SpanRole::Zone { kind } = &e.role {
            if let Some(raw) = e.raw {
                let node_id: Option<String> = match e.compiled {
                    Some(c) => owning_node_id(node_spans, &c),
                    None => None,
                };
                out.push(
                    RawZonePayload {
                        kind: *kind,
                        start: raw.start,
                        end: raw.end,
                        presence: zone_presence(e.compiled, node_spans),
                        node_id,
                    },
                );
            }
        }
        i += 1;
    }
    assert(sm.entries@.take(i as int) == sm.entries@);
    out
}

// ---------------------------------------------------------------------
// The code map
// ---------------------------------------------------------------------

/// The source map of a model as the report shows it.
#[derive(Debug, PartialEq)]
pub struct CodeMapPayload {
    /// The text that every compiled span indexes into.
    pub compiled: String,
    /// The compiled spans of the nodes, by node id.
    pub node_spans: StrMap<SourceSpan>,
    /// The control zones.
    pub raw_zones: Vec<RawZonePayload>,
    /// The compiled spans of the columns, by node id and column.
    pub column_spans: StrMap<SourceSpan>,
    /// The raw spans of the nodes, by node id.
    pub raw_node_spans: StrMap<SourceSpan>,
    /// The raw spans of the columns, by node id and column.
    pub raw_column_spans: StrMap<SourceSpan>,
}

impl CodeMapPayload {
    /// This is the projection of `sm`.
    pub open spec fn projects(&self, sm: SourceMap) -> bool {
        &&& self.compiled == sm.compiled
        &&& self.node_spans@ == spans_by_key(sm.entries@, false, false)
        &&& self.column_spans@ == spans_by_key(sm.entries@, true, false)
        &&& self.raw_node_spans@ == spans_by_key(sm.entries@, false, true)
        &&& self.raw_column_spans@ == spans_by_key(sm.entries@, true, true)
        &&& shows_zones(self.raw_zones@, sm.entries@, self.node_spans.entries())
    }

    /// Projects a source map.
    pub fn from_source_map(sm: &SourceMap) -> (r: Self)
        ensures
            r.projects(*sm),
    {
        let node_spans: StrMap<SourceSpan> = sm.node_spans();
        let raw_zones: Vec<RawZonePayload> = gather_raw_zones(sm, &node_spans);
        CodeMapPayload {
            compiled: sm.compiled.clone(),
            node_spans,
            raw_zones,
            column_spans: collect_spans(&sm.entries, true, false),
            raw_node_spans: collect_spans(&sm.entries, false, true),
            raw_column_spans: collect_spans(&sm.entries, true, true),
        }
    }
}

/// Law: a zone that was pruned from the compiled text is shown as such and
/// belongs to no node; a zone that belongs to a node lies within its body.
pub proof fn law_pruned_zone_has_no_owner(
    p: RawZonePayload,
    e: SourceMapEntry,
    bodies: Seq<(Seq<char>, SourceSpan)>,
)
    requires
        shows_zone(p, e, bodies),
    ensures
        e.compiled is None ==> p.presence@ == "compiled_out"@ && p.node_id is None,
        p.node_id is Some ==> exists|k: int|
            0 <= k < bodies.len() && (#[trigger] bodies[k]).0 == p.node_id->0@
                && bodies[k].1.covers(e.compiled->0),
{
    if let Some(c) = e.compiled {
        lemma_narrowest_in(bodies, c);
        if p.node_id is Some {
            let k = narrowest(bodies, c)->0;
            assert(bodies[k].0 == p.node_id->0@);
        }
    }
}

/// Law: the node that a zone belongs to has the narrowest body of all that
/// cover the zone's compiled span.
pub proof fn law_owner_is_narrowest(bodies: Seq<(Seq<char>, SourceSpan)>, c: SourceSpan)
    ensures
        match narrowest(bodies, c) {
            Some(k) => 0 <= k < bodies.len() && bodies[k].1.covers(c) && forall|j: int|
                0 <= j < bodies.len() && (#[trigger] bodies[j]).1.covers(c)
                    ==> bodies[k].1.width() <= bodies[j].1.width(),
            None => forall|j: int| 0 <= j < bodies.len() ==> !(#[trigger] bodies[j]).1.covers(c),
        },
    decreases bodies.len(),
{
    if bodies.len() > 0 {
        let head = bodies.drop_last();
        law_owner_is_narrowest(head, c);
        assert forall|j: int| 0 <= j < bodies.len() - 1 implies #[trigger] bodies[j] == head[j] by {}
    }
}

// ---------------------------------------------------------------------
// Compiled text per node
// ---------------------------------------------------------------------

/// `sql` holds, under the id of each node whose span is a range of the
/// compiled text, the text of that range.
pub open spec fn slices_of(sql: Map<Seq<char>, String>, sm: SourceMap) -> bool {
    let b = encode_utf8(sm.compiled@);
    let spans = spans_by_key(sm.entries@, false, false);
    &&& forall|k: Seq<char>| #[trigger]
        sql.dom().contains(k) <==> spans.dom().contains(k) && sliceable(
            b,
            spans[k].start.byte as int,
            spans[k].end.byte as int,
        )
    &&& forall|k: Seq<char>| #[trigger]
        sql.dom().contains(k) ==> sql[k]@ == decode_utf8(
            b.subrange(spans[k].start.byte as int, spans[k].end.byte as int),
        )
}

/// The compiled text of each node, by node id; empty without a source map.
pub fn build_compiled_sql(source_map: Option<&SourceMap>) -> (r: StrMap<String>)
    ensures
        match source_map {
            Some(sm) => slices_of(r@, *sm),
            None => r@ == Map::<Seq<char>, String>::empty(),
        },
{
    let mut out: StrMap<String> = StrMap::new();
    let sm: &SourceMap = match source_map {
        Some(sm) => sm,
        None => {
            return out;
        },
    };
    let spans: StrMap<SourceSpan> = sm.node_spans();
    let ghost all = spans.entries();
    let ghost b = encode_utf8(sm.compiled@);
    let n: usize = spans.len();
    let mut i: usize = 0;
    while i < n
        invariant
            i <= n == all.len(),
            all == spans.entries(),
            keys_ascend(all),
            source_map == Some(sm),
            b == encode_utf8(sm.compiled@),
            spans@ == spans_by_key(sm.entries@, false, false),
            forall|k: Seq<char>| #[trigger]
                out@.dom().contains(k) <==> exists|j: int|
                    0 <= j < i && (#[trigger] all[j]).0 == k && sliceable(
                        b,
                        all[j].1.start.byte as int,
                        all[j].1.end.byte as int,
                    ),
            forall|j: int|
                0 <= j < i && sliceable(
                    b,
                    (#[trigger] all[j]).1.start.byte as int,
                    all[j].1.end.byte as int,
                ) ==> out@[all[j].0]@ == decode_utf8(
                    b.subrange(all[j].1.start.byte as int, all[j].1.end.byte as int),
                ),
        decreases n - i,
    {
        let span: &SourceSpan = spans.value_at(i);
        let text: &str = sm.compiled.as_str();
        let ghost before = out@;
        proof {
            assert forall|j: int| 0 <= j < i implies (#[trigger] all[j]).0 != all[i as int].0 by {
                crate::order::lemma_lex_irreflexive(crate::order::codes(all[j].0));
                assert(crate::order::text_lt(all[j].0, all[i as int].0));
            }
        }
        if let Some(piece) = get_slice(text, span.start.byte as usize, span.end.byte as usize) {
            out.insert(spans.key_at(i).clone(), piece.to_owned());
            assert forall|k: Seq<char>| #[trigger]
                out@.dom().contains(k) <==> exists|j: int|
                    0 <= j < i + 1 && (#[trigger] all[j]).0 == k && sliceable(
                        b,
                        all[j].1.start.byte as int,
                        all[j].1.end.byte as int,
                    ) by {
                if k == all[i as int].0 {
                    assert(out@.dom().contains(k));
                } else if before.dom().contains(k) {
                    assert(out@.dom().contains(k));
                }
            }
        }
        i += 1;
    }
    proof {
        let sql = out@;
        let m = spans@;
        assert forall|k: Seq<char>| #[trigger]
            sql.dom().contains(k) <==> m.dom().contains(k) && sliceable(
                b,
                m[k].start.byte as int,
                m[k].end.byte as int,
            ) by {
            if sql.dom().contains(k) {
                let j = choose|j: int|
                    0 <= j < n && (#[trigger] all[j]).0 == k && sliceable(
                        b,
                        all[j].1.start.byte as int,
                        all[j].1.end.byte as int,
                    );
                crate::table::lemma_lookup(all, j);
            }
            if m.dom().contains(k) {
                let j = choose|j: int| 0 <= j < all.len() && (#[trigger] all[j]).0 == k;
                crate::table::lemma_lookup(all, j);
            }
        }
        assert forall|k: Seq<char>| #[trigger] sql.dom().contains(k) implies sql[k]@ == decode_utf8(
            b.subrange(m[k].start.byte as int, m[k].end.byte as int),
        ) by {
            let j = choose|j: int|
                0 <= j < n && (#[trigger] all[j]).0 == k && sliceable(
                    b,
                    all[j].1.start.byte as int,
                    all[j].1.end.byte as int,
                );
            crate::table::lemma_lookup(all, j);
        }
    }
    out
}

/// Law: the text that the report shows for a node is the part of the code
/// map's compiled text under that node's span.
pub proof fn law_sql_is_code_map_slice(
    sql: Map<Seq<char>, String>,
    code_map: CodeMapPayload,
    sm: SourceMap,
    k: Seq<char>,
)
    requires
        slices_of(sql, sm),
        code_map.projects(sm),
        sql.dom().contains(k),
    ensures
        code_map.node_spans@.dom().contains(k),
        encode_utf8(sql[k]@) == encode_utf8(code_map.compiled@).subrange(
            code_map.node_spans@[k].start.byte as int,
            code_map.node_spans@[k].end.byte as int,
        ),
{
    let b = encode_utf8(sm.compiled@);
    let s = code_map.node_spans@[k].start.byte as int;
    let e = code_map.node_spans@[k].end.byte as int;
    encode_utf8_valid_utf8(sm.compiled@);
    crate::span::lemma_boundary_in_prefix(b, s, e);
    valid_utf8_split(b.subrange(0, e), s);
    assert(b.subrange(0, e).subrange(s, b.subrange(0, e).len() as int) == b.subrange(s, e));
    decode_utf8_encode_utf8(b.subrange(s, e));
}

/// Law: where every node's span is a range of the compiled text, the report
/// shows text for exactly the nodes of the code map.
pub proof fn law_sql_keys_are_code_map_keys(
    sql: Map<Seq<char>, String>,
    code_map: CodeMapPayload,
    sm: SourceMap,
)
    requires
        slices_of(sql, sm),
        code_map.projects(sm),
        forall|k: Seq<char>| #[trigger]
            code_map.node_spans@.dom().contains(k) ==> sliceable(
                encode_utf8(sm.compiled@),
                code_map.node_spans@[k].start.byte as int,
                code_map.node_spans@[k].end.byte as int,
            ),
    ensures
        sql.dom() == code_map.node_spans@.dom(),
{
    assert forall|k: Seq<char>| sql.dom().contains(k) == code_map.node_spans@.dom().contains(k) by {
        if code_map.node_spans@.dom().contains(k) {
            assert(sql.dom().contains(k));
        }
    }
    assert(sql.dom() =~= code_map.node_spans@.dom());
}

// ---------------------------------------------------------------------
// Laws on the map and its projection
// ---------------------------------------------------------------------

/// Law: the map of a graph holds, in order, an entry for the body of each node
/// and one for each column, each with its name and its compiled span and none
/// with a raw span. A graph without nodes has one body, the final select, over
/// all of the text.
pub proof fn law_graph_map(
    sm: SourceMap,
    graph: CteGraph,
    compiled: Seq<char>,
    terminal: Seq<char>,
)
    requires
        is_graph_map(sm, graph, compiled, terminal),
    ensures
        sm.compiled@ == compiled,
        ({
            let bodies = if graph.nodes@.len() == 0 {
                1
            } else {
                graph.nodes@.len() as int
            };
            &&& sm.entries@.len() == bodies + graph.column_spans@.len()
            &&& forall|i: int|
                0 <= i < graph.nodes@.len() ==> (#[trigger] sm.entries@[i]).role
                    == (SpanRole::CteBody { node_id: graph.nodes@[i].name })
                    && sm.entries@[i].compiled == graph.nodes@[i].span && sm.entries@[i].raw is None
            &&& graph.nodes@.len() == 0 ==> {
                let e = sm.entries@[0];
                let b = encode_utf8(compiled);
                &&& e.role is CteBody && e.role->CteBody_node_id@ == terminal
                &&& e.raw is None
                &&& e.compiled == Some(span_at(b, 0, b.len() as int))
            }
            &&& forall|i: int|
                0 <= i < graph.column_spans@.len() ==> {
                    let c = #[trigger] graph.column_spans@[i];
                    let e = sm.entries@[bodies + i];
                    e.role == (SpanRole::Column { node_id: c.node, column: c.column })
                        && e.compiled == c.span && e.raw is None
                }
        }),
{
    let columns = graph.column_spans@.map_values(|c: ColumnSpan| column_entry(c));
    assert(columns.len() == graph.column_spans@.len());
    if graph.nodes@.len() == 0 {
        assert forall|i: int| 0 <= i < graph.column_spans@.len() implies sm.entries@[1 + i]
            == column_entry(#[trigger] graph.column_spans@[i]) by {
            assert(sm.entries@.skip(1)[i] == columns[i]);
        }
    }
}

/// Law: the entry of a zone has its kind, its raw span, and the compiled span
/// that it binds to.
pub proof fn law_zone_entry(raw: Seq<u8>, zone: ZoneFact, compiled: Seq<u8>)
    ensures
        zone_entry(raw, zone, compiled).role == (SpanRole::Zone { kind: zone.kind }),
        zone_entry(raw, zone, compiled).raw == Some(zone.raw_span),
        zone_entry(raw, zone, compiled).compiled == compiled_span(raw, zone.raw_span, compiled),
{
}

/// Law: a body adds its span under its node to the spans of the nodes, a
/// column adds its span under its node and column to those of the columns, in
/// the compiled text and in the raw text alike, where it has one there; zones
/// add to neither.
pub proof fn law_spans_by_key(
    entries: Seq<SourceMapEntry>,
    e: SourceMapEntry,
    columns: bool,
    raw: bool,
)
    ensures
        spans_by_key(Seq::empty(), columns, raw) == Map::<Seq<char>, SourceSpan>::empty(),
        ({
            let span = if raw {
                e.raw
            } else {
                e.compiled
            };
            let before = spans_by_key(entries, columns, raw);
            let all = spans_by_key(entries.push(e), columns, raw);
            &&& span is None ==> all == before
            &&& e.role is Zone ==> all == before
            &&& e.role is CteBody && columns ==> all == before
            &&& e.role is Column && !columns ==> all == before
            &&& e.role matches SpanRole::CteBody { node_id } ==> span is Some && !columns ==> all
                == before.insert(node_id@, span->0)
            &&& e.role matches SpanRole::Column { node_id, column } ==> span is Some && columns
                ==> all == before.insert(node_id@ + "\u{1f}"@ + column@, span->0)
        }),
{
    assert(entries.push(e).drop_last() == entries);
}

/// Law: a node or a column without a raw span is given the one that was
/// located under its key; nothing else of any entry changes.
pub proof fn law_with_raw(e: SourceMapEntry, located: Map<Seq<char>, SourceSpan>)
    ensures
        with_raw(e, located).role == e.role,
        with_raw(e, located).compiled == e.compiled,
        e.raw is Some ==> with_raw(e, located).raw == e.raw,
        e.role is Zone ==> with_raw(e, located).raw == e.raw,
        e.role matches SpanRole::CteBody { node_id } ==> e.raw is None ==> with_raw(
            e,
            located,
        ).raw == if located.dom().contains(node_id@) {
            Some(located[node_id@])
        } else {
            None
        },
        e.role matches SpanRole::Column { node_id, column } ==> e.raw is None ==> with_raw(
            e,
            located,
        ).raw == if located.dom().contains(node_id@ + "\u{1f}"@ + column@) {
            Some(located[node_id@ + "\u{1f}"@ + column@])
        } else {
            None
        },
{
}

/// Law: a zone without a compiled span is compiled out and belongs to nothing.
/// A zone with one is structural where it is smaller than a body that covers
/// it, else compiled in, and belongs to a node exactly where a body covers it.
pub proof fn law_presence(c: SourceSpan, bodies: Seq<(Seq<char>, SourceSpan)>)
    ensures
        presence_of(None, bodies) == "compiled_out"@,
        owner_of(None, bodies) is None,
        (exists|k: int|
            {
                let s = (#[trigger] bodies[k]).1;
                &&& 0 <= k < bodies.len()
                &&& s.start.byte <= c.start.byte && c.end.byte <= s.end.byte
                &&& s.start.byte != c.start.byte || s.end.byte != c.end.byte
            }) ==> presence_of(Some(c), bodies) == "structural"@,
        (forall|k: int|
            0 <= k < bodies.len() ==> {
                let s = (#[trigger] bodies[k]).1;
                ||| c.start.byte < s.start.byte || c.end.byte > s.end.byte
                ||| s.start.byte == c.start.byte && s.end.byte == c.end.byte
            }) ==> presence_of(Some(c), bodies) == "compiled_in"@,
        owner_of(Some(c), bodies) is Some <==> exists|k: int|
            0 <= k < bodies.len() && (#[trigger] bodies[k]).1.start.byte <= c.start.byte
                && c.end.byte <= bodies[k].1.end.byte,
{
    law_owner_is_narrowest(bodies, c);
    if exists|k: int|
        {
            let s = (#[trigger] bodies[k]).1;
            &&& 0 <= k < bodies.len()
            &&& s.start.byte <= c.start.byte && c.end.byte <= s.end.byte
            &&& s.start.byte != c.start.byte || s.end.byte != c.end.byte
        } {
        let k = choose|k: int|
            {
                let s = (#[trigger] bodies[k]).1;
                &&& 0 <= k < bodies.len()
                &&& s.start.byte <= c.start.byte && c.end.byte <= s.end.byte
                &&& s.start.byte != c.start.byte || s.end.byte != c.end.byte
            };
        assert(strictly_inside(c, bodies[k].1));
    }
    if let Some(k) = narrowest(bodies, c) {
        assert(bodies[k].1.covers(c));
    }
    if exists|k: int|
        0 <= k < bodies.len() && (#[trigger] bodies[k]).1.start.byte <= c.start.byte && c.end.byte
            <= bodies[k].1.end.byte {
        let k = choose|k: int|
            0 <= k < bodies.len() && (#[trigger] bodies[k]).1.start.byte <= c.start.byte
                && c.end.byte <= bodies[k].1.end.byte;
        assert(bodies[k].1.covers(c));
    }
}

/// Law: of several bodies as narrow as each other the first owns the zone, and
/// the owner is named by its own key.
pub proof fn law_first_of_equals(bodies: Seq<(Seq<char>, SourceSpan)>, c: SourceSpan, k: int)
    requires
        0 <= k < bodies.len(),
        bodies[k].1.covers(c),
        forall|j: int|
            0 <= j < bodies.len() && (#[trigger] bodies[j]).1.covers(c) ==> bodies[k].1.width()
                <= bodies[j].1.width(),
        forall|j: int|
            0 <= j < k && (#[trigger] bodies[j]).1.covers(c) ==> bodies[k].1.width()
                < bodies[j].1.width(),
    ensures
        narrowest(bodies, c) == Some(k),
        owner_of(Some(c), bodies) == Some(bodies[k].0),
    decreases bodies.len(),
{
    let head = bodies.drop_last();
    let n = bodies.len() - 1;
    if k < n {
        assert(head[k] == bodies[k]);
        assert forall|j: int| 0 <= j < head.len() && (#[trigger] head[j]).1.covers(c) implies
            head[k].1.width() <= head[j].1.width() by {
            assert(bodies[j] == head[j]);
        }
        assert forall|j: int| 0 <= j < k && (#[trigger] head[j]).1.covers(c) implies
            head[k].1.width() < head[j].1.width() by {
            assert(bodies[j] == head[j]);
        }
        law_first_of_equals(head, c, k);
        assert(bodies[n].1.covers(c) ==> bodies[k].1.width() <= bodies[n].1.width());
    } else {
        law_owner_is_narrowest(head, c);
        if let Some(j) = narrowest(head, c) {
            assert(bodies[j] == head[j]);
        }
    }
}

/// Law: a zone is shown with its kind, the ends of its raw span, its presence
/// and its owner. Every zone with a raw span is shown, in order, and nothing
/// else.
pub proof fn law_zones_shown(
    out: Seq<RawZonePayload>,
    entries: Seq<SourceMapEntry>,
    bodies: Seq<(Seq<char>, SourceSpan)>,
)
    requires
        shows_zones(out, entries, bodies),
    ensures
        ({
            let zones = entries.filter(|e: SourceMapEntry| e.role is Zone && e.raw is Some);
            &&& out.len() == zones.len()
            &&& forall|k: int|
                0 <= k < out.len() ==> {
                    let z = #[trigger] out[k];
                    &&& zones[k].role == (SpanRole::Zone { kind: z.kind })
                    &&& zones[k].raw->0.start == z.start
                    &&& zones[k].raw->0.end == z.end
                    &&& z.presence@ == presence_of(zones[k].compiled, bodies)
                    &&& opt_text(z.node_id) == owner_of(zones[k].compiled, bodies)
                }
        }),
{
    let p = |e: SourceMapEntry| e.role is Zone && e.raw is Some;
    let q = |e: SourceMapEntry| shown_zone(e);
    assert(p =~= q);
    assert forall|k: int| 0 <= k < out.len() implies shows_zone(
        #[trigger] out[k],
        entries.filter(q)[k],
        bodies,
    ) by {}
}

/// Law: the code map of a source map is its text, the compiled and the raw
/// spans of its nodes and of its columns, and its zones against the bodies of
/// its nodes.
pub proof fn law_projection(p: CodeMapPayload, sm: SourceMap)
    requires
        p.projects(sm),
    ensures
        p.compiled@ == sm.compiled@,
        p.node_spans@ == spans_by_key(sm.entries@, false, false),
        p.column_spans@ == spans_by_key(sm.entries@, true, false),
        p.raw_node_spans@ == spans_by_key(sm.entries@, false, true),
        p.raw_column_spans@ == spans_by_key(sm.entries@, true, true),
        shows_zones(p.raw_zones@, sm.entries@, p.node_spans.entries()),
{
}

/// Law: the text of a node is what its span covers of the compiled text, and a
/// node has a text exactly where its span is a range of it.
pub proof fn law_slices(sql: Map<Seq<char>, String>, sm: SourceMap, k: Seq<char>)
    requires
        slices_of(sql, sm),
    ensures
        ({
            let b = encode_utf8(sm.compiled@);
            let spans = spans_by_key(sm.entries@, false, false);
            let s = spans[k];
            &&& sql.dom().contains(k) <==> spans.dom().contains(k) && sliceable(
                b,
                s.start.byte as int,
                s.end.byte as int,
            )
            &&& sql.dom().contains(k) ==> sql[k]@ == decode_utf8(
                b.subrange(s.start.byte as int, s.end.byte as int),
            )
        }),
{
}

} // verus!
