//! Control zones: the scan of the raw code, the binding in the compiled code
//! and the projection of the source map.
use cute_report::anchor::{literal_fragments, longest_literal_fragment, resolve_zone_compiled};
use cute_report::domain::TERMINAL_NODE_NAME;
use cute_report::jinja::{fuzz_locate_raw_zones, locate_raw_zones, ZoneKind};
use cute_report::scan::{
    call_paren_follows, find_close, find_expr_close, is_word_byte, offset_in_string_literal,
    step_string_scan, token_left_boundary_ok, token_right_boundary_ok,
};
use cute_report::sourcemap::{
    append_zone_entries, build_compiled_sql, CodeMapPayload, SourceMap, SourceMapEntry, SpanRole,
};
use cute_report::span::{byte_span, SourcePos, SourceSpan};

#[test]
fn from_source_map_projects_zone_entries_into_raw_zones() {
    let sm = SourceMap {
        compiled: "select 1".to_owned(),
        entries: vec![
            SourceMapEntry {
                role: SpanRole::CteBody {
                    node_id: TERMINAL_NODE_NAME.to_owned(),
                },
                raw: None,
                compiled: Some(SourceSpan {
                    start: SourcePos {
                        line: 1,
                        col: 1,
                        byte: 0,
                    },
                    end: SourcePos {
                        line: 1,
                        col: 9,
                        byte: 8,
                    },
                }),
            },
            SourceMapEntry {
                role: SpanRole::Zone {
                    kind: ZoneKind::IncrementalGuard,
                },
                raw: Some(SourceSpan {
                    start: SourcePos {
                        line: 1,
                        col: 1,
                        byte: 0,
                    },
                    end: SourcePos {
                        line: 1,
                        col: 5,
                        byte: 4,
                    },
                }),
                compiled: None,
            },
        ],
    };
    let payload = CodeMapPayload::from_source_map(&sm);
    assert_eq!(payload.node_spans.len(), 1);
    assert!(payload.node_spans.contains_key(TERMINAL_NODE_NAME));
    assert_eq!(payload.raw_zones.len(), 1, "the Zone arm is projected");
    assert_eq!(payload.raw_zones[0].kind, ZoneKind::IncrementalGuard);
    assert_eq!(payload.raw_zones[0].start.byte, 0);
    assert_eq!(payload.raw_zones[0].end.byte, 4);
    assert_eq!(
        payload.raw_zones[0].presence, "compiled_out",
        "compiled: None ⇒ the honest pruned verdict"
    );
    assert!(
        payload.raw_zones[0].node_id.is_none(),
        "compiled_out ⇒ no node edge (never-a-false-claim)"
    );
}

#[test]
fn scan_locates_an_incremental_guard() {
    let raw = "select *\nfrom events\n{% if is_incremental() %}\nwhere ts > 0\n{% endif %}";
    let zones = locate_raw_zones(raw);
    assert_eq!(zones.len(), 1, "one incremental-guard zone");
    assert_eq!(zones[0].kind, ZoneKind::IncrementalGuard);
    let covered = &raw[zones[0].raw_span.byte_range()];
    assert!(covered.starts_with("{% if is_incremental()"));
    assert!(covered.ends_with("{% endif %}"));
}

#[test]
fn scan_locates_a_for_loop() {
    let raw = "case status\n{% for s in statuses %}when {{ s }} then 1\n{% endfor %}\nend";
    let zones = locate_raw_zones(raw);
    assert_eq!(zones.len(), 1, "one for-loop zone");
    assert_eq!(zones[0].kind, ZoneKind::ForLoop);
    let covered = &raw[zones[0].raw_span.byte_range()];
    assert!(covered.starts_with("{% for s in statuses %}"));
    assert!(covered.ends_with("{% endfor %}"));
}

#[test]
fn scan_pairs_nested_if_inside_for_by_depth_stack() {
    let raw = "{% for x in xs %}{% if is_incremental() %}a{% endif %}b{% endfor %}";
    let zones = locate_raw_zones(raw);
    assert_eq!(zones.len(), 2, "inner guard + outer for-loop");
    let kinds: Vec<ZoneKind> = zones.iter().map(|z| z.kind).collect();
    assert!(kinds.contains(&ZoneKind::IncrementalGuard));
    assert!(kinds.contains(&ZoneKind::ForLoop));
    assert_eq!(
        zones[0].kind,
        ZoneKind::IncrementalGuard,
        "inner endif pairs to the inner if (depth-stack, not first-endif-wins)"
    );
    let outer = zones
        .iter()
        .find(|z| z.kind == ZoneKind::ForLoop)
        .unwrap()
        .raw_span;
    assert!(outer.contains_range(&zones[0].raw_span));
}

#[test]
fn scan_handles_whitespace_control_trim_markers() {
    let raw = "x\n{%- if is_incremental() -%}\ny\n{%- endif -%}\nz";
    let zones = locate_raw_zones(raw);
    assert_eq!(zones.len(), 1);
    assert_eq!(zones[0].kind, ZoneKind::IncrementalGuard);
    let covered = &raw[zones[0].raw_span.byte_range()];
    assert!(covered.starts_with("{%- if is_incremental()"));
    assert!(covered.ends_with("-%}"));
}

#[test]
fn scan_comment_swallows_an_inner_tag() {
    let raw = "select 1 {# {% if is_incremental() %} #} from t";
    assert!(
        locate_raw_zones(raw).is_empty(),
        "a tag inside a comment is not a zone"
    );
}

#[test]
fn scan_string_literal_does_not_close_the_tag_early() {
    let raw = "{% if is_incremental() and x == '%}' %}body{% endif %}";
    let zones = locate_raw_zones(raw);
    assert_eq!(
        zones.len(),
        1,
        "a percent-brace inside a string literal does not close the tag early"
    );
    assert_eq!(zones[0].kind, ZoneKind::IncrementalGuard);
    let covered = &raw[zones[0].raw_span.byte_range()];
    assert!(covered.ends_with("{% endif %}"));
}

#[test]
fn scan_unbalanced_yields_empty_fail_closed() {
    assert!(locate_raw_zones("{% if is_incremental() %}body").is_empty());
    assert!(locate_raw_zones("body{% endif %}").is_empty());
    assert!(locate_raw_zones("{% if is_incremental() %}x{% endfor %}").is_empty());
    assert!(locate_raw_zones("{% if is_incremental() ").is_empty());
    assert!(locate_raw_zones("").is_empty());
}

#[test]
fn scan_plain_if_pairs_but_emits_no_zone() {
    let raw = "{% if foo %}a{% endif %}\n{% for x in xs %}b{% endfor %}";
    let zones = locate_raw_zones(raw);
    assert_eq!(zones.len(), 1, "only the for-loop is a zone");
    assert_eq!(zones[0].kind, ZoneKind::ForLoop);
}

#[test]
fn append_zone_entries_incremental_guard_pruned_is_compiled_out() {
    let raw = "select *\nfrom events\n{% if is_incremental() %}\nwhere ts > (select max(ts) from this)\n{% endif %}";
    let compiled = "select *\nfrom events"; // the guard body is pruned
    let mut sm = SourceMap {
        compiled: compiled.to_owned(),
        entries: vec![SourceMapEntry {
            role: SpanRole::CteBody {
                node_id: TERMINAL_NODE_NAME.to_owned(),
            },
            raw: None,
            compiled: byte_span(compiled, 0, compiled.len()),
        }],
    };
    append_zone_entries(&mut sm, raw, compiled);
    let payload = CodeMapPayload::from_source_map(&sm);
    assert_eq!(payload.raw_zones.len(), 1);
    let z = &payload.raw_zones[0];
    assert_eq!(z.kind, ZoneKind::IncrementalGuard);
    assert_eq!(z.presence, "compiled_out", "guard pruned this build");
    assert!(z.node_id.is_none(), "compiled_out ⇒ no node edge");
}

#[test]
fn append_zone_entries_shape_a_for_loop_is_structural() {
    let raw = "select\n  case status\n  {% for s in statuses %}when unique_status_marker then {{ s }}\n  {% endfor %}\n  end as label\nfrom events";
    let compiled = "select\n  case status\n  when unique_status_marker then 1\n  end as label\nfrom events";
    let mut sm = SourceMap {
        compiled: compiled.to_owned(),
        entries: vec![SourceMapEntry {
            role: SpanRole::CteBody {
                node_id: TERMINAL_NODE_NAME.to_owned(),
            },
            raw: None,
            compiled: byte_span(compiled, 0, compiled.len()),
        }],
    };
    append_zone_entries(&mut sm, raw, compiled);
    let payload = CodeMapPayload::from_source_map(&sm);
    assert_eq!(payload.raw_zones.len(), 1, "one for-loop zone");
    let z = &payload.raw_zones[0];
    assert_eq!(z.kind, ZoneKind::ForLoop);
    assert_eq!(
        z.presence, "structural",
        "the loop expands inside one CTE body (strictly nested)"
    );
    assert_eq!(
        z.node_id.as_deref(),
        Some(TERMINAL_NODE_NAME),
        "structural zone binds to its containing node"
    );
}

#[test]
fn longest_literal_fragment_skips_jinja_constructs() {
    let body = "{% if x %}select distinct id from {{ ref('t') }} where active{% endif %}";
    let frag = longest_literal_fragment(body).expect("a literal fragment");
    assert_eq!(frag, "select distinct id from");
}

#[test]
fn resolve_zone_compiled_returns_none_when_anchor_absent() {
    let raw = "{% if is_incremental() %}where unique_marker_xyz > 0{% endif %}";
    let zone = &locate_raw_zones(raw)[0];
    let compiled = "select * from events"; // anchor absent
    assert!(resolve_zone_compiled(raw, &zone.raw_span, compiled).is_none());
}

#[test]
fn resolve_zone_compiled_ambiguous_anchor_is_none_not_a_false_bind() {
    let raw = "{% if is_incremental() %}where status = 'active'{% endif %}";
    let zone = &locate_raw_zones(raw)[0];
    let compiled = "select * from a where status = 'active'\n\
                    union all\n\
                    select * from b where status = 'active'";
    assert!(
        resolve_zone_compiled(raw, &zone.raw_span, compiled).is_none(),
        "a multiply-occurring anchor must NOT fabricate a Some (never-a-false-claim)"
    );
}

#[test]
fn append_zone_entries_ambiguous_anchor_resolves_to_compiled_out() {
    let raw =
        "select *\nfrom events\n{% if is_incremental() %}where status = 'active'{% endif %}";
    let compiled = "select * from a where status = 'active'\n\
                    union all\n\
                    select * from b where status = 'active'";
    let mut sm = SourceMap {
        compiled: compiled.to_owned(),
        entries: vec![SourceMapEntry {
            role: SpanRole::CteBody {
                node_id: TERMINAL_NODE_NAME.to_owned(),
            },
            raw: None,
            compiled: byte_span(compiled, 0, compiled.len()),
        }],
    };
    append_zone_entries(&mut sm, raw, compiled);
    let payload = CodeMapPayload::from_source_map(&sm);
    assert_eq!(payload.raw_zones.len(), 1);
    let z = &payload.raw_zones[0];
    assert_eq!(
        z.presence, "compiled_out",
        "ambiguous anchor ⇒ honest absence, never a fabricated presence"
    );
    assert!(
        z.node_id.is_none(),
        "no fabricated node edge from an ambiguous anchor"
    );
}

#[test]
fn resolve_zone_compiled_prefers_a_unique_shorter_anchor_over_an_ambiguous_longer_one() {
    let raw = "{% if is_incremental() %}where status = 'active'\n\
               {{ adapter }}and rare_marker_q > 0{% endif %}";
    let zone = &locate_raw_zones(raw)[0];
    let compiled = "select * from a where status = 'active'\n\
                    union all\n\
                    select * from b where status = 'active' and rare_marker_q > 0";
    let span = resolve_zone_compiled(raw, &zone.raw_span, compiled)
        .expect("the unique shorter fragment resolves");
    let matched = &compiled[span.byte_range()];
    assert_eq!(
        matched, "and rare_marker_q > 0",
        "binds the UNIQUE fragment, not the first occurrence of the ambiguous one"
    );
}

#[test]
fn from_source_map_projects_raw_node_spans_for_a_verbatim_cte() {
    let raw = "with stg as (select 1 as id) select id from stg";
    let compiled = "with stg as (select 1 as id) select id from stg";
    let mut sm = SourceMap {
        compiled: compiled.to_owned(),
        entries: vec![
            SourceMapEntry {
                role: SpanRole::CteBody {
                    node_id: "stg".to_owned(),
                },
                raw: None,
                compiled: byte_span(compiled, 5, 28),
            },
            SourceMapEntry {
                role: SpanRole::CteBody {
                    node_id: TERMINAL_NODE_NAME.to_owned(),
                },
                raw: None,
                compiled: byte_span(compiled, 29, compiled.len()),
            },
        ],
    };
    sm.entries[0].raw = byte_span(raw, 5, 28);
    let payload = CodeMapPayload::from_source_map(&sm);
    let stg = payload
        .raw_node_spans
        .get("stg")
        .expect("verbatim CTE emits a raw_node_spans entry");
    assert_eq!(&raw[stg.byte_range()], "stg as (select 1 as id)");
    assert!(
        !payload.raw_node_spans.contains_key(TERMINAL_NODE_NAME),
        "terminal node has no verbatim raw name token ⇒ omitted in S1"
    );
}

#[test]
fn from_source_map_omits_raw_column_span_for_a_templated_column() {
    let raw = "select {{ macro_col('templated_col') }}, plain_col from t";
    let compiled = "select rendered, plain_col from t";
    let key = |c: &str| format!("{TERMINAL_NODE_NAME}\u{1f}{c}");
    let mut sm = SourceMap {
        compiled: compiled.to_owned(),
        entries: vec![
            SourceMapEntry {
                role: SpanRole::Column {
                    node_id: TERMINAL_NODE_NAME.to_owned(),
                    column: "templated_col".to_owned(),
                },
                raw: None,
                compiled: byte_span(compiled, 7, 15),
            },
            SourceMapEntry {
                role: SpanRole::Column {
                    node_id: TERMINAL_NODE_NAME.to_owned(),
                    column: "plain_col".to_owned(),
                },
                raw: None,
                compiled: byte_span(compiled, 17, 26),
            },
        ],
    };
    sm.entries[1].raw = byte_span(raw, 41, 50);
    let payload = CodeMapPayload::from_source_map(&sm);
    assert!(
        !payload.raw_column_spans.contains_key(&key("templated_col")),
        "a templated column (masked away) ⇒ no raw_column_spans key"
    );
    let plain = payload
        .raw_column_spans
        .get(&key("plain_col"))
        .expect("a verbatim column anchors uniquely");
    assert_eq!(&raw[plain.byte_range()], "plain_col");
}

#[test]
fn from_source_map_raw_spans_empty_when_no_scanner_run() {
    let compiled = "with a as (select 1) select * from a";
    let sm = SourceMap {
        compiled: compiled.to_owned(),
        entries: vec![SourceMapEntry {
            role: SpanRole::CteBody {
                node_id: "a".to_owned(),
            },
            raw: None,
            compiled: byte_span(compiled, 5, 20),
        }],
    };
    let payload = CodeMapPayload::from_source_map(&sm);
    assert!(payload.raw_node_spans.is_empty());
    assert!(payload.raw_column_spans.is_empty());
}

#[test]
fn scan_orphan_else_yields_empty_fail_closed() {
    assert!(
        locate_raw_zones("select 1\n{% else %}\nselect 2").is_empty(),
        "an orphan else (no opener) ⇒ empty (fail-closed)"
    );
    assert!(
        locate_raw_zones("select 1\n{% elif x %}\nselect 2").is_empty(),
        "an orphan elif (no opener) ⇒ empty (fail-closed)"
    );
    assert!(
        locate_raw_zones("{% else %}\n{% for x in xs %}a{% endfor %}").is_empty(),
        "an orphan else must abort the whole scan, not just its own region"
    );
}

#[test]
fn scan_well_placed_else_inside_a_block_still_pairs() {
    let raw = "{% if is_incremental() %}a{% else %}b{% endif %}";
    let zones = locate_raw_zones(raw);
    assert_eq!(zones.len(), 1, "a well-placed else does not break pairing");
    assert_eq!(zones[0].kind, ZoneKind::IncrementalGuard);
}

#[test]
fn classify_is_incremental_matches_an_actual_call_not_a_substring() {
    let raw = "{% if is_incremental() %}a{% endif %}";
    let zones = locate_raw_zones(raw);
    assert_eq!(zones.len(), 1);
    assert_eq!(zones[0].kind, ZoneKind::IncrementalGuard);

    assert!(
        locate_raw_zones("{% if some_is_incremental_flag %}a{% endif %}").is_empty(),
        "`some_is_incremental_flag` is a plain if, not an incremental guard"
    );

    assert!(
        locate_raw_zones("{% if x == 'is_incremental' %}a{% endif %}").is_empty(),
        "a quoted 'is_incremental' literal is not a call ⇒ plain if, no zone"
    );

    assert!(
        locate_raw_zones("{% if is_incremental %}a{% endif %}").is_empty(),
        "`is_incremental` with no `(` is not a call ⇒ plain if, no zone"
    );

    let zones = locate_raw_zones("{% if is_incremental () %}a{% endif %}");
    assert_eq!(zones.len(), 1, "whitespace before `(` is still a call");
    assert_eq!(zones[0].kind, ZoneKind::IncrementalGuard);
}

#[test]
fn is_word_byte_classifies_identifier_chars() {
    for b in [b'a', b'Z', b'0', b'9', b'_'] {
        assert!(is_word_byte(b), "{} is a word char", b as char);
    }
    for b in [b' ', b'(', b'\'', b'-', b'.'] {
        assert!(!is_word_byte(b), "{} is not a word char", b as char);
    }
}

#[test]
fn token_boundary_helpers_honor_identifier_edges() {
    let b = b"xis_incremental";
    assert!(!token_left_boundary_ok(b, 1));
    assert!(token_left_boundary_ok(b"is_incremental", 0));
    assert!(!token_right_boundary_ok(b"is_incremental_x", 14));
    assert!(token_right_boundary_ok(b"is_incremental", 14));
    assert!(token_right_boundary_ok(b"is_incremental(", 14));
}

#[test]
fn call_paren_follows_skips_whitespace_then_requires_open_paren() {
    assert!(call_paren_follows(b"(", 0));
    assert!(call_paren_follows(b"   (", 0), "leading ws then `(`");
    assert!(!call_paren_follows(b"   ", 0), "ws only, no `(`");
    assert!(!call_paren_follows(b"x", 0), "non-`(` byte");
    assert!(!call_paren_follows(b"", 0), "empty ⇒ no `(`");
}

#[test]
fn offset_in_string_literal_detects_quote_state() {
    let s = b"x == 'is_incremental'";
    assert!(
        offset_in_string_literal(s, 6),
        "offset 6 is inside the quote"
    );
    assert!(!offset_in_string_literal(s, 21));
    assert!(!offset_in_string_literal(b"is_incremental()", 0));
    assert!(offset_in_string_literal(b"x == \"abc\"", 6));
    assert!(
        offset_in_string_literal(b"'a\\'b'c", 4),
        "escaped quote keeps the literal open"
    );
    assert!(offset_in_string_literal(b"'a\\", 3), "unterminated escape");
}

#[test]
fn step_string_scan_advances_and_tracks_quotes() {
    let mut q: Option<u8> = None;
    let next = step_string_scan(b"'a'", 0, &mut q);
    assert_eq!((next, q), (1, Some(b'\'')));
    let mut q = Some(b'\'');
    let next = step_string_scan(b"'a'", 2, &mut q);
    assert_eq!((next, q), (3, None));
    let mut q = Some(b'\'');
    let next = step_string_scan(b"\\'", 0, &mut q);
    assert_eq!((next, q), (2, Some(b'\'')));
    let mut q: Option<u8> = None;
    let next = step_string_scan(b"\"x", 0, &mut q);
    assert_eq!((next, q), (1, Some(b'"')));
    let mut q: Option<u8> = None;
    let next = step_string_scan(b"ab", 0, &mut q);
    assert_eq!((next, q), (1, None));
}

#[test]
fn closers_are_found_where_they_end() {
    assert_eq!(find_close(b"a '#}' #}", 0, b'#'), Some(5));
    assert_eq!(find_expr_close(b"a '%}' %}", 0, b'%'), Some(9));
    assert_eq!(find_expr_close(b"'\\'%}' %}", 0, b'%'), Some(9), "an escaped quote does not close");
    assert_eq!(find_expr_close(b"'%}", 0, b'%'), None);
    assert_eq!(find_close(b"#", 0, b'#'), None);
    assert_eq!(find_close(b"#}", 7, b'#'), None);
}

#[test]
fn one_dash_controls_white_space() {
    assert_eq!(locate_raw_zones("{%- for x in xs -%}a{%-endfor-%}").len(), 1);
    assert!(locate_raw_zones("{%-- for x in xs %}a{% endfor %}").is_empty());
}

#[test]
fn zones_as_plain_numbers() {
    let raw = "é{% for x in xs %}{% if is_incremental() %}a{% endif %}{% endfor %}";
    assert_eq!(fuzz_locate_raw_zones(raw), [(0, 19, 56, 1), (1, 2, 68, 0)]);
    assert_eq!(&raw[19..56], "{% if is_incremental() %}a{% endif %}");
    assert!(fuzz_locate_raw_zones("{{ x").is_empty(), "a variable that is not terminated");
    assert!(fuzz_locate_raw_zones("{# x").is_empty(), "a comment that is not terminated");
    let braces = "{ x } {% for y in ys %}{{ '}}' }}{% endfor %}";
    assert_eq!(fuzz_locate_raw_zones(braces), [(1, 6, 45, 0)]);
}

#[test]
fn zones_nest_or_lie_apart() {
    let raw = "{% for a in x %}{% for b in y %}{% endfor %}{% endfor %}{% for c in z %}{% endfor %}";
    let zones = fuzz_locate_raw_zones(raw);
    assert_eq!(zones.len(), 3);
    for (i, first) in zones.iter().enumerate() {
        assert!(first.1 < first.2 && first.2 as usize <= raw.len());
        for second in &zones[i + 1..] {
            assert!(first.2 <= second.1 || (second.1 < first.1 && first.2 < second.2));
            assert_ne!(first.3, second.3);
        }
    }
}

#[test]
fn a_position_counts_lines_and_characters() {
    let text = "aé\nbü\nc";
    let span = byte_span(text, 3, 7).unwrap();
    assert_eq!(span.start, SourcePos { line: 1, col: 3, byte: 3 });
    assert_eq!(span.end, SourcePos { line: 2, col: 3, byte: 7 });
    assert_eq!(byte_span(text, 2, 3), None, "inside a character");
    assert_eq!(byte_span(text, 3, 2), None, "out of order");
    assert_eq!(byte_span(text, 0, 10), None, "out of bounds");
    assert_eq!(byte_span("", 0, 0).unwrap().end, SourcePos { line: 1, col: 1, byte: 0 });
}

#[test]
fn fragments_come_longest_first_and_ties_in_order() {
    assert_eq!(literal_fragments("ab {{ x }} cd {# y #} efg {% z %}\u{a0}"), ["efg", "ab", "cd"]);
    assert_eq!(literal_fragments("ab {{ x } cd"), ["ab"], "an open construct swallows the rest");
    assert!(literal_fragments(" {{ x }} ").is_empty());
    assert_eq!(longest_literal_fragment(""), None);
}

#[test]
fn a_fragment_binds_where_it_stands_once() {
    let raw = "{% for x in xs %}ab {{ x }} abc{% endfor %}";
    let zone = locate_raw_zones(raw)[0];
    let span = resolve_zone_compiled(raw, &zone.raw_span, "é abc").unwrap();
    assert_eq!((span.start.byte, span.end.byte), (3, 6));
    assert!(resolve_zone_compiled(raw, &zone.raw_span, "abc abc").is_none());
    assert!(resolve_zone_compiled(raw, &zone.raw_span, "ab").is_none(), "two characters are too few");
    let twin = "{% for x in xs %}abab{% endfor %}";
    let span = locate_raw_zones(twin)[0].raw_span;
    assert!(resolve_zone_compiled(twin, &span, "x abab").is_some());
    assert!(resolve_zone_compiled(twin, &span, "ababab").is_none(), "places may overlap");
    let bad = SourceSpan { start: zone.raw_span.end, end: zone.raw_span.start };
    assert!(resolve_zone_compiled(raw, &bad, "abc").is_none());
}

#[test]
fn the_narrowest_body_owns_a_zone() {
    let compiled = "with a as (select xyz) select 1";
    let entry = |node_id: &str, start: usize, end: usize| SourceMapEntry {
        role: SpanRole::CteBody { node_id: node_id.to_owned() },
        raw: None,
        compiled: byte_span(compiled, start, end),
    };
    let zone = |start: usize, end: usize| SourceMapEntry {
        role: SpanRole::Zone { kind: ZoneKind::ForLoop },
        raw: byte_span(compiled, 0, 1),
        compiled: byte_span(compiled, start, end),
    };
    let mut no_raw = zone(0, 1);
    no_raw.raw = None;
    let sm = SourceMap {
        compiled: compiled.to_owned(),
        entries: vec![entry("whole", 0, 31), entry("a", 11, 21), zone(18, 21), zone(0, 31), no_raw],
    };
    let payload = CodeMapPayload::from_source_map(&sm);
    assert_eq!(payload.raw_zones.len(), 2);
    assert_eq!(payload.raw_zones[0].node_id.as_deref(), Some("a"));
    assert_eq!(payload.raw_zones[0].presence, "structural");
    assert_eq!(payload.raw_zones[1].node_id.as_deref(), Some("whole"));
    assert_eq!(payload.raw_zones[1].presence, "compiled_in");
    let sql = build_compiled_sql(Some(&sm));
    assert_eq!(sql.get("a").unwrap(), "select xyz");
    assert_eq!(sql.len(), 2);
    assert_eq!(build_compiled_sql(None).len(), 0);
}

#[test]
fn spans_are_keyed_by_node_and_column() {
    let compiled = "select id";
    let sm = SourceMap {
        compiled: compiled.to_owned(),
        entries: vec![SourceMapEntry {
            role: SpanRole::Column { node_id: "n".to_owned(), column: "id".to_owned() },
            raw: None,
            compiled: byte_span(compiled, 7, 9),
        }],
    };
    let payload = CodeMapPayload::from_source_map(&sm);
    assert!(payload.column_spans.contains_key("n\u{1f}id"));
    assert_eq!(payload.node_spans.len(), 0);
}
