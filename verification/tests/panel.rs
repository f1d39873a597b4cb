//! The panel on changes of the project file.
use cute_report::domain::{BlockDiff, DiffLine, DiffLineKind, Manifest, Node};
use cute_report::names::{affected_display_names, capped_names, var_display_names, CONFIG_AFFECTED_CAP};
use cute_report::panel::{
    affected_models_strings, hook_row_note, macro_tier_names, project_panel_view,
    var_entry_notes, var_entry_tier_lines, vars_row_note, ConfigAttribution, ConfigLeafPath,
    HookChangeFacts, HookManifestPresence, MacroVarHit, ProjectChange, ProjectChangeCategory,
    ProjectChangePanel, ProjectFallbackReason, VarAttribution, VarChangeFacts, VarScanFootprint,
};
use cute_report::table::{StrMap, StrSet};

fn json(text: &str) -> serde_json::Value {
    serde_json::from_str(text).unwrap()
}

fn set<I: IntoIterator<Item = String>>(ids: I) -> StrSet {
    let mut out = StrSet::new();
    for id in ids {
        out.insert(id);
    }
    out
}

fn map<V, I: IntoIterator<Item = (String, V)>>(entries: I) -> StrMap<V> {
    let mut out = StrMap::new();
    for (k, v) in entries {
        out.insert(k, v);
    }
    out
}

fn blank_attribution() -> VarAttribution {
    VarAttribution {
        name: String::new(),
        package: None,
        old: None,
        new: None,
        direct: Vec::new(),
        config: Vec::new(),
        via_macros: Vec::new(),
        dynamic: Vec::new(),
        masked_packages: Vec::new(),
        insulated_tests: Vec::new(),
    }
}

fn full_var_attribution() -> VarAttribution {
    VarAttribution {
        name: "dq_threshold".to_owned(),
        package: None,
        old: Some(json("10")),
        new: Some(json("5")),
        direct: vec!["model.shop.mart_dq".to_owned()],
        config: vec!["model.shop.grid".to_owned()],
        via_macros: vec![MacroVarHit {
            model: "model.shop.stg_enc".to_owned(),
            via: "macro.shop.add_dq_flags".to_owned(),
        }],
        dynamic: vec!["model.shop.dyn_caller".to_owned()],
        masked_packages: vec!["dbt_utils".to_owned()],
        insulated_tests: vec!["unit_test.shop.mart_dq.test_pins_threshold".to_owned()],
    }
}

fn vars_change_with_facts(entries: Vec<VarAttribution>) -> ProjectChange {
    ProjectChange {
        category: ProjectChangeCategory::Vars,
        label: "dq_threshold".to_owned(),
        old: Some(json("10")),
        new: Some(json("5")),
        hook: None,
        tree: None,
        vars: Some(VarChangeFacts {
            entries,
            footprint: VarScanFootprint {
                models_scanned: 469,
                macros_scanned: 910,
                python_models: 2,
            },
        }),
    }
}

fn hooks_change_with_facts(presence: HookManifestPresence, ids: Vec<String>) -> ProjectChange {
    let line = |kind: DiffLineKind, text: &str, emphasis: (usize, usize)| DiffLine {
        kind,
        text: text.to_owned(),
        emphasis: Some(emphasis),
    };
    ProjectChange {
        category: ProjectChangeCategory::Hooks,
        label: "on-run-start".to_owned(),
        old: Some(json(r#"["grant usage on schema x"]"#)),
        new: Some(json(r#"["grant select on schema x"]"#)),
        hook: Some(HookChangeFacts {
            sql_diff: Some(BlockDiff {
                lines: vec![
                    line(DiffLineKind::Removed, "grant usage on schema x", (6, 11)),
                    line(DiffLineKind::Added, "grant select on schema x", (6, 12)),
                ],
            }),
            operation_ids: ids,
            manifest: presence,
        }),
        tree: None,
        vars: None,
    }
}

#[test]
fn vars_row_with_facts_builds_entries_and_swaps_in_the_honest_note() {
    let panel = ProjectChangePanel::Categorized {
        changes: vec![vars_change_with_facts(vec![full_var_attribution()])],
    };
    let view = project_panel_view(&Manifest::new(), &panel, &StrMap::new());
    let row = &view.rows[0];
    assert!(row.detail.is_empty(), "entries carry their own old→new");
    for fragment in [
        "are \u{201c}at least\u{201d}, never exact",
        "dynamic var() names",
        "var-to-var value indirection",
        "CLI --vars overrides",
        "Python models",
        "Checked: 469 models' SQL and configs plus 910 macro bodies",
        "(2 Python models could not be scanned)",
        "An inline var() default never overrides a project value",
        "disabled by this edit drop out of the manifest and cannot be listed",
        "contextualized here, never widened into report scope",
    ] {
        assert!(
            row.note.contains(fragment),
            "note must state {fragment:?}: {}",
            row.note
        );
    }
    let entry = &row.var_entries[0];
    assert_eq!(entry.name, "dq_threshold");
    assert!(
        entry.scope.is_empty(),
        "a global entry carries no scope label"
    );
    assert_eq!(entry.detail, "10 \u{2192} 5");
    let lines: Vec<(&str, &str)> = entry
        .tier_lines
        .iter()
        .map(|l| (l.tier_key, l.text.as_str()))
        .collect();
    assert_eq!(
        lines,
        vec![
            (
                "direct",
                "at least 1 model reads this var directly in SQL: mart_dq",
            ),
            (
                "config",
                "at least 1 model carries config driven by this var: grid",
            ),
            (
                "macro",
                "at least 1 model reads this var through its macro closure: \
                 stg_enc (via add_dq_flags)",
            ),
        ],
    );
    assert_eq!(
        entry.notes,
        vec![
            "masked for dbt_utils: a package-scoped value pins this var there, so \
             this edit does not reach those models (package vars outrank global vars)"
                .to_owned(),
            "1 unit test pins this var in overrides.vars and is insulated from this \
             edit (the override always wins): test_pins_threshold"
                .to_owned(),
            "1 model calls var() with a computed name and cannot be ruled out: \
             dyn_caller"
                .to_owned(),
        ],
    );
}

#[test]
fn vars_row_package_scoped_entry_carries_the_scope_label() {
    let entry = VarAttribution {
        package: Some("dbt_utils".to_owned()),
        masked_packages: Vec::new(),
        ..full_var_attribution()
    };
    let panel = ProjectChangePanel::Categorized {
        changes: vec![vars_change_with_facts(vec![entry])],
    };
    let view = project_panel_view(&Manifest::new(), &panel, &StrMap::new());
    assert_eq!(
        view.rows[0].var_entries[0].scope,
        "package-scoped: dbt_utils",
    );
}

#[test]
fn vars_row_zero_hit_entry_states_the_empty_scan_explicitly() {
    let entry = VarAttribution {
        name: "unreferenced".to_owned(),
        old: Some(json(r#""a""#)),
        new: Some(json(r#""b""#)),
        ..blank_attribution()
    };
    let panel = ProjectChangePanel::Categorized {
        changes: vec![vars_change_with_facts(vec![entry])],
    };
    let view = project_panel_view(&Manifest::new(), &panel, &StrMap::new());
    let rendered = &view.rows[0].var_entries[0];
    assert!(rendered.tier_lines.is_empty());
    assert_eq!(
        rendered.notes,
        vec!["no referencing models found by the static scan".to_owned()],
    );
}

#[test]
fn var_tier_lines_apply_the_r1b_cap() {
    let entry = VarAttribution {
        direct: (0..=CONFIG_AFFECTED_CAP)
            .map(|i| format!("model.shop.m{i:02}"))
            .collect(),
        config: Vec::new(),
        via_macros: Vec::new(),
        dynamic: Vec::new(),
        masked_packages: Vec::new(),
        insulated_tests: Vec::new(),
        ..full_var_attribution()
    };
    let lines = var_entry_tier_lines(&Manifest::new(), &entry);
    assert_eq!(lines.len(), 1);
    assert_eq!(
        lines[0].text,
        "at least 11 models read this var directly in SQL \u{2014} listed, not \
         individually rendered",
    );
    assert_eq!(lines[0].overflow.len(), 11);
    assert_eq!(lines[0].overflow[0], "m00");
    let at_cap = VarAttribution {
        direct: (0..CONFIG_AFFECTED_CAP)
            .map(|i| format!("model.shop.m{i:02}"))
            .collect(),
        ..entry
    };
    let lines = var_entry_tier_lines(&Manifest::new(), &at_cap);
    assert!(lines[0].text.contains("m00"), "{}", lines[0].text);
    assert!(lines[0].overflow.is_empty());
}

#[test]
fn affected_models_strings_inline_up_to_the_cap_and_collapse_past_it() {
    let (text, overflow) = affected_models_strings(&Manifest::new(), &StrSet::new());
    assert_eq!(text, "affects 0 models in this manifest");
    assert!(overflow.is_empty());

    let at_cap = set((0..CONFIG_AFFECTED_CAP).map(|i| format!("m{i:02}")));
    let (text, overflow) = affected_models_strings(&Manifest::new(), &at_cap);
    assert!(
        text.contains("affects 10 models — widened into report scope: m00,"),
        "{text}",
    );
    assert!(text.contains("m09"), "every name rides inline: {text}");
    assert!(overflow.is_empty());

    let over = set((0..=CONFIG_AFFECTED_CAP).map(|i| format!("m{i:02}")));
    let (text, overflow) = affected_models_strings(&Manifest::new(), &over);
    assert_eq!(
        text,
        "affects 11 models — widened into report scope, listed below",
    );
    assert_eq!(overflow.len(), 11);
    assert!(!text.contains("m00"), "no name leaks inline past the cap");
}

#[test]
fn affected_models_count_by_node_id_and_disambiguate_bare_name_twins() {
    let ids = set([
        "model.shop.dim_x".to_owned(),
        "model.pkg_two.dim_x".to_owned(),
        "model.shop.fct_solo".to_owned(),
    ]);
    let (text, overflow) = affected_models_strings(&Manifest::new(), &ids);
    assert_eq!(
        text,
        "affects 3 models — widened into report scope: \
         fct_solo, model.pkg_two.dim_x, model.shop.dim_x",
    );
    assert!(overflow.is_empty());
}

#[test]
fn project_panel_view_attaches_affected_listing_to_models_tree_rows_only() {
    let models_leaf = ConfigLeafPath {
        section: "models".to_owned(),
        segments: vec!["shop".to_owned(), "marts".to_owned()],
        key: "materialized".to_owned(),
    };
    let seeds_leaf = ConfigLeafPath {
        section: "seeds".to_owned(),
        segments: Vec::new(),
        key: "quote_columns".to_owned(),
    };
    let panel = ProjectChangePanel::Categorized {
        changes: vec![
            ProjectChange {
                category: ProjectChangeCategory::Vars,
                label: "flag".to_owned(),
                old: Some(json(r#"1"#)),
                new: Some(json(r#"2"#)),
                hook: None,
                tree: None,
                vars: None,
            },
            ProjectChange {
                category: ProjectChangeCategory::ConfigTree,
                label: "models.shop.marts.+materialized".to_owned(),
                old: Some(json(r#""view""#)),
                new: Some(json(r#""table""#)),
                hook: None,
                tree: Some(models_leaf),
                vars: None,
            },
            ProjectChange {
                category: ProjectChangeCategory::ConfigTree,
                label: "seeds.+quote_columns".to_owned(),
                old: None,
                new: Some(json(r#"false"#)),
                hook: None,
                tree: Some(seeds_leaf),
                vars: None,
            },
        ],
    };
    let attributions = map([
        (
            "model.shop.dim_a".to_owned(),
            vec![ConfigAttribution {
                key: "materialized".to_owned(),
                path: "models.shop.marts".to_owned(),
            }],
        ),
        (
            "model.shop.fct_b".to_owned(),
            vec![ConfigAttribution {
                key: "materialized".to_owned(),
                path: "models.shop.marts".to_owned(),
            }],
        ),
    ]);
    let view = project_panel_view(&Manifest::new(), &panel, &attributions);
    assert_eq!(view.rows.len(), 3);
    let vars_row = &view.rows[0];
    assert!(
        vars_row.affected_text.is_empty(),
        "vars rows make no affected-models claim (contextualize, never widen)",
    );
    let models_row = &view.rows[1];
    assert_eq!(
        models_row.affected_text,
        "affects 2 models — widened into report scope: dim_a, fct_b",
    );
    assert!(models_row.affected_overflow.is_empty());
    let seeds_row = &view.rows[2];
    assert!(
        seeds_row.affected_text.is_empty(),
        "non-models sections make no claim (this slice attributes models: only)",
    );
}

#[test]
fn project_panel_view_reports_a_truthful_zero_for_a_shadowed_models_edit() {
    let leaf = ConfigLeafPath {
        section: "models".to_owned(),
        segments: vec!["shop".to_owned()],
        key: "materialized".to_owned(),
    };
    let panel = ProjectChangePanel::Categorized {
        changes: vec![ProjectChange {
            category: ProjectChangeCategory::ConfigTree,
            label: "models.shop.+materialized".to_owned(),
            old: Some(json(r#""view""#)),
            new: Some(json(r#""table""#)),
            hook: None,
            tree: Some(leaf),
            vars: None,
        }],
    };
    let view = project_panel_view(&Manifest::new(), &panel, &StrMap::new());
    assert_eq!(
        view.rows[0].affected_text,
        "affects 0 models in this manifest",
    );
}

#[test]
fn hooks_row_emits_slot_and_manifest_note_and_drops_json_detail() {
    let panel = ProjectChangePanel::Categorized {
        changes: vec![hooks_change_with_facts(
            HookManifestPresence::Matched,
            vec!["operation.shop.shop-on-run-start-0".to_owned()],
        )],
    };
    let view = project_panel_view(&Manifest::new(), &panel, &StrMap::new());
    let row = &view.rows[0];
    assert!(row.hook_slot, "the hooks row emits the JS-fill slot");
    assert_eq!(row.label, "on-run-start");
    assert!(
        row.note.contains("runs in the manifest as operation.shop.shop-on-run-start-0"),
        "the note states the manifest-side operation reality",
    );
    assert!(
        !row.detail.contains("[\"grant usage on schema x\"]"),
        "the raw JSON detail is dropped when the SQL diff renders",
    );
}

#[test]
fn hooks_row_absent_note_enumerates_causes_and_what_was_checked() {
    let mut change = hooks_change_with_facts(HookManifestPresence::Absent, Vec::new());
    change.hook.as_mut().unwrap().sql_diff = None;
    let panel = ProjectChangePanel::Categorized { changes: vec![change] };
    let view = project_panel_view(&Manifest::new(), &panel, &StrMap::new());
    let row = &view.rows[0];
    assert!(
        row.note.contains("no matching operation.* nodes in the manifest"),
        "the absent verdict is stated in-row",
    );
    assert!(
        row.note.contains("checked the manifest nodes"),
        "the note states what WAS checked",
    );
    assert!(!row.hook_slot, "no slot without a diff to fill");
    assert!(
        row.detail.contains("[\"grant select on schema x\"]"),
        "without a diff the row keeps its plain detail",
    );
}

#[test]
fn dispatch_row_renders_unknown_tier_banner_with_honest_copy() {
    let order = |list: &str| {
        Some(json(&format!(
            r#"[{{ "macro_namespace": "dbt_utils", "search_order": {list} }}]"#
        )))
    };
    let panel = ProjectChangePanel::Categorized {
        changes: vec![ProjectChange {
            category: ProjectChangeCategory::Dispatch,
            label: "dispatch".to_owned(),
            old: order(r#"["dbt_utils", "shop"]"#),
            new: order(r#"["shop", "dbt_utils"]"#),
            hook: None,
            tree: None,
            vars: None,
        }],
    };
    let view = project_panel_view(&Manifest::new(), &panel, &StrMap::new());
    let row = &view.rows[0];
    assert!(row.banner, "the dispatch row renders as a banner");
    assert_eq!(row.category_key, "dispatch");
    assert_eq!(row.tier, "UNKNOWN", "the UNKNOWN tier chip renders");
    assert!(row.note.contains("cannot be attributed statically"));
    assert!(row.note.contains("macro resolution happens per call at compile time"));
    assert!(row.note.contains("Checked: the old and new dispatch values"));
    assert!(row.detail.contains("search_order"));
}

#[test]
fn each_category_has_its_key_and_label() {
    let shown: Vec<(&str, &str, bool)> = [
        ProjectChangeCategory::Vars,
        ProjectChangeCategory::ConfigTree,
        ProjectChangeCategory::Dispatch,
        ProjectChangeCategory::Hooks,
        ProjectChangeCategory::Paths,
        ProjectChangeCategory::Identity,
        ProjectChangeCategory::Other,
    ]
    .into_iter()
    .map(cute_report::panel::project_category_strings)
    .map(|(key, label, note)| (key, label, note.is_empty()))
    .collect();
    assert_eq!(
        shown,
        [
            ("vars", "vars", false),
            ("config_tree", "config tree", true),
            ("dispatch", "dispatch", false),
            ("hooks", "hooks", true),
            ("paths", "paths", true),
            ("identity", "identity", true),
            ("other", "other", true),
        ],
    );
}

#[test]
fn a_change_shows_both_sides_or_the_one_there_is() {
    let detail = |old: Option<&str>, new: Option<&str>| {
        let panel = ProjectChangePanel::Categorized {
            changes: vec![ProjectChange {
                category: ProjectChangeCategory::Other,
                label: "x".to_owned(),
                old: old.map(json),
                new: new.map(json),
                hook: None,
                tree: None,
                vars: None,
            }],
        };
        project_panel_view(&Manifest::new(), &panel, &StrMap::new()).rows[0].detail.clone()
    };
    assert_eq!(detail(Some("{\"a\": [1, 2.0]}"), Some("\"b\"")), "{\"a\":[1,2.0]} \u{2192} \"b\"");
    assert_eq!(detail(None, Some("null")), "added: null");
    assert_eq!(detail(Some("true"), None), "removed: true");
    assert_eq!(detail(None, None), "");
}

#[test]
fn a_fallback_says_why_and_shows_the_raw_diff() {
    for (reason, start) in [
        (ProjectFallbackReason::NewParseFailed, "dbt_project.yml could not be parsed"),
        (ProjectFallbackReason::OldParseFailed, "The previous version of dbt_project.yml could not"),
        (ProjectFallbackReason::OldNotReconstructable, "Could not reconstruct the previous version"),
        (ProjectFallbackReason::FileUnreadable, "dbt_project.yml changed in this diff, but"),
    ] {
        let line = |kind: DiffLineKind, text: &str| DiffLine {
            kind,
            text: text.to_owned(),
            emphasis: None,
        };
        let panel = ProjectChangePanel::Fallback {
            reason,
            raw: vec![
                line(DiffLineKind::Context, "a"),
                line(DiffLineKind::Removed, "b"),
                line(DiffLineKind::Added, "c"),
            ],
        };
        let view = project_panel_view(&Manifest::new(), &panel, &StrMap::new());
        assert!(view.fallback_copy.starts_with(start), "{}", view.fallback_copy);
        assert!(view.rows.is_empty() && !view.is_empty_change);
        let kinds: Vec<(&str, &str)> =
            view.fallback_lines.iter().map(|l| (l.kind, l.text.as_str())).collect();
        assert_eq!(kinds, [("context", "a"), ("removed", "b"), ("added", "c")]);
    }
    let none = ProjectChangePanel::Categorized { changes: Vec::new() };
    assert!(project_panel_view(&Manifest::new(), &none, &StrMap::new()).is_empty_change);
}

#[test]
fn hooks_that_diverge_or_are_gone_say_so() {
    let facts = |manifest: HookManifestPresence, ids: &[&str]| HookChangeFacts {
        sql_diff: None,
        operation_ids: ids.iter().map(|s| (*s).to_owned()).collect(),
        manifest,
    };
    assert_eq!(
        hook_row_note(&facts(HookManifestPresence::Matched, &[])),
        "no operation nodes remain in the manifest — consistent with this removal",
    );
    assert_eq!(
        hook_row_note(&facts(HookManifestPresence::Diverged, &["a", "b"])),
        "the manifest's operation nodes (a, b) do not match the working-tree hooks — manifest and \
         working tree may be out of sync; the diff is read from dbt_project.yml itself",
    );
}

#[test]
fn numbers_of_one_are_in_the_singular() {
    let note = vars_row_note(&VarScanFootprint {
        models_scanned: 1,
        macros_scanned: 1,
        python_models: 0,
    });
    assert!(note.contains("Checked: 1 model's SQL and configs plus 1 macro body. An inline"), "{note}");
    let mut entry = full_var_attribution();
    entry.insulated_tests.push("unit_test.shop.a.b".to_owned());
    entry.dynamic.push("model.shop.other".to_owned());
    let notes = var_entry_notes(&Manifest::new(), &entry);
    assert!(notes[1].starts_with("2 unit tests pin this var in overrides.vars and are insulated"));
    assert!(notes[1].ends_with("test_pins_threshold, b"));
    assert_eq!(
        notes[2],
        "2 models call var() with a computed name and cannot be ruled out: dyn_caller, other",
    );
    entry.dynamic = (0..11).map(|i| format!("model.shop.m{i}")).collect();
    assert_eq!(
        var_entry_notes(&Manifest::new(), &entry)[2],
        "11 models call var() with a computed name and cannot be ruled out",
    );
}

#[test]
fn models_are_listed_once_and_told_apart() {
    let ids = |list: &[&str]| -> Vec<String> { list.iter().map(|s| (*s).to_owned()).collect() };
    assert_eq!(var_display_names(&Manifest::new(), &ids(&["m.b", "m.a", "m.b"])), ["a", "b"]);
    assert_eq!(
        affected_display_names(&Manifest::new(), &set(ids(&["x.a", "y.a", "a", "y.b"]))),
        ["a", "b", "x.a", "y.a"],
    );
    let hits = [("m.p.a", "x.f"), ("m.p.a", "x.g"), ("m.p.b", "f")].map(|(model, via)| {
        MacroVarHit { model: model.to_owned(), via: via.to_owned() }
    });
    assert_eq!(
        macro_tier_names(&Manifest::new(), &Vec::from(hits)),
        ["a (via f)", "a (via g)", "b (via f)"],
    );
    assert_eq!(capped_names(ids(&["a", "b"])), ("a, b".to_owned(), Vec::new()));
    let many: Vec<String> = (0..11).map(|i| i.to_string()).collect();
    assert_eq!(capped_names(many), (String::new(), (0..11).map(|i| i.to_string()).collect()));
}

#[test]
fn a_model_behind_two_macros_counts_once() {
    let hit = |model: &str, via: &str| MacroVarHit { model: model.to_owned(), via: via.to_owned() };
    let mut entry = blank_attribution();
    entry.via_macros = vec![hit("model.shop.a", "macro.shop.f"), hit("model.shop.a", "macro.shop.g")];
    let lines = var_entry_tier_lines(&Manifest::new(), &entry);
    assert_eq!(
        lines[0].text,
        "at least 1 model reads this var through its macro closure: a (via f), a (via g)",
    );
    entry.via_macros.push(hit("model.base.a", "macro.shop.f"));
    let lines = var_entry_tier_lines(&Manifest::new(), &entry);
    assert_eq!(
        lines[0].text,
        "at least 2 models read this var through their macro closure: \
         model.base.a (via f), model.shop.a (via f), model.shop.a (via g)",
    );
}

#[test]
fn a_versioned_model_is_listed_by_its_name() {
    let mut manifest = Manifest::new();
    for (id, name) in [("model.shop.dim.v2", "dim"), ("model.shop.fct.v2", "fct")] {
        let mut node = Node::new(id, "model");
        node.name = Some(name.to_owned());
        manifest.add_node(node);
    }
    let both = set(["model.shop.dim.v2", "model.shop.fct.v2"].map(str::to_owned));
    assert_eq!(affected_display_names(&manifest, &both), ["dim", "fct"]);
    assert_eq!(
        affected_models_strings(&manifest, &both).0,
        "affects 2 models — widened into report scope: dim, fct",
    );
    let mut first = Node::new("model.shop.dim.v1", "model");
    first.name = Some("dim".to_owned());
    manifest.add_node(first);
    let versions = set(["model.shop.dim.v1", "model.shop.dim.v2"].map(str::to_owned));
    assert_eq!(
        affected_display_names(&manifest, &versions),
        ["model.shop.dim.v1", "model.shop.dim.v2"],
    );
}

#[test]
fn no_name_is_taken_for_another_id() {
    let mut manifest = Manifest::new();
    for (id, name) in [("m.p.a", "m.q.b"), ("m.q.b", "b"), ("m.r.b", "b"), ("m.s.c", "c")] {
        let mut node = Node::new(id, "model");
        node.name = Some(name.to_owned());
        manifest.add_node(node);
    }
    let all = set(["m.p.a", "m.q.b", "m.r.b", "m.s.c"].map(str::to_owned));
    assert_eq!(affected_display_names(&manifest, &all), ["c", "m.p.a", "m.q.b", "m.r.b"]);
}

#[test]
fn a_setting_reaches_the_models_that_carry_it_at_its_place() {
    let carries = |path: &str, key: &str| ConfigAttribution {
        key: key.to_owned(),
        path: path.to_owned(),
    };
    let attributions = map([
        ("model.shop.a".to_owned(), vec![carries("models", "x"), carries("models.shop", "x")]),
        ("model.shop.b".to_owned(), vec![carries("models", "y"), carries("models", "x")]),
        ("model.shop.c".to_owned(), vec![]),
    ]);
    let text = |segments: &[&str], key: &str| {
        let panel = ProjectChangePanel::Categorized {
            changes: vec![ProjectChange {
                category: ProjectChangeCategory::ConfigTree,
                label: "l".to_owned(),
                old: None,
                new: None,
                hook: None,
                tree: Some(ConfigLeafPath {
                    section: "models".to_owned(),
                    segments: segments.iter().map(|s| (*s).to_owned()).collect(),
                    key: key.to_owned(),
                }),
                vars: None,
            }],
        };
        project_panel_view(&Manifest::new(), &panel, &attributions).rows[0].affected_text.clone()
    };
    assert_eq!(text(&[], "x"), "affects 2 models — widened into report scope: a, b");
    assert_eq!(text(&["shop"], "x"), "affects 1 model — widened into report scope: a");
    assert_eq!(text(&["shop"], "y"), "affects 0 models in this manifest");
}
