//! The lens on changed macros.
use cute_report::domain::{BlockDiff, DiffLine, DiffLineKind, MacroIdentity, Manifest, Node};
use cute_report::macros::{
    build_macro_dag, build_macro_lens, impacted_model_tree, impacted_model_views,
    line_invokes_macro, macro_body_context_lines, macro_call_sites, split_dir_path, LineageNode, MacroDagEdge,
    MacroDagNode, MacroImpact, MacroLineage, MacroRole, ScopeSource, MACRO_CALL_SITE_CAP,
};
use cute_report::table::{StrMap, StrSet};

/// A project for the tests: a manifest, with the macros that each model calls
/// and the models that it reads.
struct Project {
    manifest: Manifest,
    calls: Vec<(String, Vec<String>)>,
    reads: Vec<(String, Vec<String>)>,
}

struct Model {
    node: Node,
    macros: Vec<String>,
    producers: Vec<String>,
}

fn owned(list: &[&str]) -> Vec<String> {
    list.iter().map(|s| (*s).to_owned()).collect()
}

fn macro_model(id: &str, ofp: &str, direct_macros: &[&str]) -> Model {
    let mut node = Node::new(id, "model");
    node.compiled_code = Some("select 1".to_owned());
    node.original_file_path = Some(ofp.to_owned());
    node.package_name = Some("shop".to_owned());
    Model { node, macros: owned(direct_macros), producers: Vec::new() }
}

fn macro_model_with_refs(id: &str, direct_macros: &[&str], producers: &[&str]) -> Model {
    let leaf = id.rsplit('.').next().unwrap_or(id);
    let mut model = macro_model(id, &format!("models/{leaf}.sql"), direct_macros);
    model.producers = owned(producers);
    model
}

fn macro_model_with_raw(id: &str, ofp: &str, direct_macros: &[&str], raw: &str) -> Model {
    let mut model = macro_model(id, ofp, direct_macros);
    model.node.raw_code = Some(raw.to_owned());
    model
}

fn identity(path: &str, name: &str, package: &str) -> MacroIdentity {
    MacroIdentity {
        original_file_path: Some(path.to_owned()),
        name: Some(name.to_owned()),
        package_name: Some(package.to_owned()),
    }
}

fn macro_lens_manifest(models: Vec<Model>) -> Project {
    let mut manifest = Manifest::new();
    manifest.project_name = Some("shop".to_owned());
    manifest.macros.insert(
        "macro.shop.add_dq_flags".to_owned(),
        "{% macro add_dq_flags(col) %}\n  case when {{ col }} then 1 end\n{% endmacro %}".to_owned(),
    );
    manifest.macro_identity.insert(
        "macro.shop.add_dq_flags".to_owned(),
        identity("macros/dq.sql", "add_dq_flags", "shop"),
    );
    let mut project = Project { manifest, calls: Vec::new(), reads: Vec::new() };
    for model in models {
        project.calls.push((model.node.id.clone(), model.macros));
        project.reads.push((model.node.id.clone(), model.producers));
        project.manifest.add_node(model.node);
    }
    project
}

/// The models of a project that call a macro, and those downstream of them.
fn impact(project: &Project, macro_id: &str) -> MacroImpact {
    let mut radius = StrSet::new();
    let mut reached = StrSet::new();
    for (id, macros) in &project.calls {
        if macros.iter().any(|m| m == macro_id) {
            radius.insert(id.clone());
            reached.insert(id.clone());
        }
    }
    for _ in &project.reads {
        for (id, producers) in &project.reads {
            if producers.iter().any(|p| reached.contains(p)) {
                reached.insert(id.clone());
            }
        }
    }
    let mut nodes = Vec::new();
    let mut edges = Vec::new();
    for i in 0..reached.len() {
        let id = reached.at(i);
        let role = if radius.contains(id) { MacroRole::User } else { MacroRole::Downstream };
        nodes.push(LineageNode {
            id: id.clone(),
            name: id.rsplit('.').next().unwrap().to_owned(),
            macro_role: Some(role),
            not_compiled: false,
        });
    }
    for (id, producers) in &project.reads {
        for producer in producers.iter().filter(|p| reached.contains(p) && reached.contains(id)) {
            edges.push(MacroDagEdge { from: producer.clone(), to: id.clone() });
        }
    }
    MacroImpact { diff: None, radius, lineage: MacroLineage { nodes, edges } }
}

fn changed(project: &Project, ids: &[&str]) -> StrMap<MacroImpact> {
    let mut map = StrMap::new();
    for id in ids {
        map.insert((*id).to_owned(), impact(project, id));
    }
    map
}

fn heavy_macro_manifest(count: usize) -> Project {
    let mut raw = String::from("with base as (\n  select *\n  from upstream\n)\n");
    for line in 0..36 {
        raw.push_str(&format!("  , col_{line} as (select {line} from base)\n"));
    }
    raw.push_str("select *\nfrom base\n  {{ add_dq_flags() }}");
    let models = (0..count)
        .map(|i| {
            macro_model_with_raw(
                &format!("model.shop.m{i:02}"),
                &format!("models/marts/m{i:02}.sql"),
                &["macro.shop.add_dq_flags"],
                &raw,
            )
        })
        .collect();
    macro_lens_manifest(models)
}

#[test]
fn build_macro_dag_role_stamps_users_and_downstream() {
    let manifest = macro_lens_manifest(vec![
        macro_model_with_refs("model.shop.staged", &["macro.shop.add_dq_flags"], &[]),
        macro_model_with_refs("model.shop.mart", &[], &["model.shop.staged"]),
        macro_model_with_refs("model.shop.island", &[], &[]),
    ]);
    let dag = build_macro_dag(impact(&manifest, "macro.shop.add_dq_flags").lineage);
    let by_id: std::collections::BTreeMap<&str, &MacroDagNode> =
        dag.nodes.iter().map(|n| (n.id.as_str(), n)).collect();
    assert_eq!(
        by_id.get("model.shop.staged").map(|n| n.role),
        Some("user"),
        "the macro-calling model is a User",
    );
    assert_eq!(
        by_id.get("model.shop.mart").map(|n| n.role),
        Some("downstream"),
        "the ref()-downstream model is Downstream context",
    );
    assert!(
        !by_id.contains_key("model.shop.island"),
        "an unrelated model is not in the focus set",
    );
    assert!(
        dag.edges
            .iter()
            .any(|e| e.from == "model.shop.staged" && e.to == "model.shop.mart"),
        "the staged -> mart ref() edge is induced: {:?}",
        dag.edges,
    );
}

#[test]
fn build_macro_dag_empty_when_no_root_model_calls_the_macro() {
    let manifest =
        macro_lens_manifest(vec![macro_model_with_refs("model.shop.island", &[], &[])]);
    let dag = build_macro_dag(impact(&manifest, "macro.shop.add_dq_flags").lineage);
    assert!(dag.nodes.is_empty(), "no caller ⇒ no DAG nodes");
    assert!(dag.edges.is_empty(), "no caller ⇒ no DAG edges");
}

#[test]
fn changed_macro_view_carries_the_macro_dag() {
    let manifest = macro_lens_manifest(vec![macro_model_with_refs(
        "model.shop.staged",
        &["macro.shop.add_dq_flags"],
        &[],
    )]);
    let changed = changed(&manifest, &["macro.shop.add_dq_flags"]);
    let lens = build_macro_lens(&manifest.manifest, changed, ScopeSource::PrDiff, usize::MAX)
        .expect("a changed macro builds the lens");
    let mac = &lens.macros[0];
    assert!(
        mac.macro_dag
            .nodes
            .iter()
            .any(|n| n.id == "model.shop.staged"),
        "the impacted model is in the macro DAG",
    );
}

#[test]
fn build_macro_lens_empty_changed_set_is_none() {
    let manifest = macro_lens_manifest(vec![macro_model(
        "model.shop.orders",
        "models/staging/orders.sql",
        &["macro.shop.add_dq_flags"],
    )]);
    assert!(
        build_macro_lens(&manifest.manifest, StrMap::new(), ScopeSource::PrDiff, usize::MAX)
            .is_none()
    );
}

#[test]
fn build_macro_lens_baseline_arm_is_exact_fidelity() {
    let manifest = macro_lens_manifest(vec![macro_model(
        "model.shop.orders",
        "models/staging/orders.sql",
        &["macro.shop.add_dq_flags"],
    )]);
    let changed = changed(&manifest, &["macro.shop.add_dq_flags"]);
    let lens = build_macro_lens(&manifest.manifest, changed, ScopeSource::Baseline, usize::MAX)
        .expect("a changed macro builds the lens");
    assert_eq!(lens.fidelity, "exact");
    assert_eq!(lens.macros.len(), 1);
    let mac = &lens.macros[0];
    assert_eq!(mac.name, "add_dq_flags");
    assert_eq!(mac.package, "shop");
    assert_eq!(mac.impacted_count, 1);
    assert!(mac.diff.is_none());
    assert!(!mac.body_lines.is_empty());
    assert!(
        mac.body_lines
            .iter()
            .all(|l| l.kind == DiffLineKind::Context)
    );
}

#[test]
fn build_macro_lens_pr_diff_arm_is_heuristic_with_body_diff() {
    let manifest = macro_lens_manifest(vec![macro_model(
        "model.shop.orders",
        "models/staging/orders.sql",
        &["macro.shop.add_dq_flags"],
    )]);
    let line = |kind: DiffLineKind, text: &str| DiffLine {
        kind,
        text: text.to_owned(),
        emphasis: None,
    };
    let mut touched = impact(&manifest, "macro.shop.add_dq_flags");
    touched.diff = Some(BlockDiff {
        lines: vec![
            line(DiffLineKind::Context, "{% macro add_dq_flags(col) %}"),
            line(DiffLineKind::Removed, "  case when {{ col }} then 0 end"),
            line(DiffLineKind::Added, "  case when {{ col }} then 1 end"),
            line(DiffLineKind::Context, "{% endmacro %}"),
        ],
    });
    let mut changed = StrMap::new();
    changed.insert("macro.shop.add_dq_flags".to_owned(), touched);
    let lens = build_macro_lens(&manifest.manifest, changed, ScopeSource::PrDiff, usize::MAX)
    .expect("a changed macro builds the lens");
    assert_eq!(lens.fidelity, "heuristic");
    let mac = &lens.macros[0];
    let body_diff = mac.diff.as_ref().expect("the touched macro body diffs");
    assert!(body_diff.lines.iter().any(|l| l.kind != DiffLineKind::Context));
    assert!(
        body_diff
            .lines
            .iter()
            .any(|l| l.kind == DiffLineKind::Removed),
        "the old macro line is spliced in",
    );
}

#[test]
fn build_macro_lens_groups_impacted_models_into_a_directory_tree() {
    let manifest = macro_lens_manifest(vec![
        macro_model(
            "model.shop.stg_orders",
            "models/staging/stg_orders.sql",
            &["macro.shop.add_dq_flags"],
        ),
        macro_model(
            "model.shop.fct_orders",
            "models/marts/core/fct_orders.sql",
            &["macro.shop.add_dq_flags"],
        ),
    ]);
    let changed = changed(&manifest, &["macro.shop.add_dq_flags"]);
    let lens = build_macro_lens(&manifest.manifest, changed, ScopeSource::Baseline, usize::MAX)
        .expect("lens builds");
    let mac = &lens.macros[0];
    assert_eq!(mac.impacted_count, 2);
    let dirs: Vec<&str> = mac
        .tree
        .iter()
        .filter(|r| r.kind == "dir")
        .map(|r| r.label.as_str())
        .collect();
    assert!(
        dirs.contains(&"models"),
        "models/ dir row present: {dirs:?}"
    );
    assert!(dirs.contains(&"marts"), "marts/ dir row present: {dirs:?}");
    assert!(
        dirs.contains(&"staging"),
        "staging/ dir row present: {dirs:?}"
    );
    let model_leaves: Vec<&str> = mac
        .tree
        .iter()
        .filter(|r| r.kind == "model")
        .map(|r| r.label.as_str())
        .collect();
    assert_eq!(model_leaves.len(), 2);
    assert!(model_leaves.contains(&"fct_orders"));
    assert!(model_leaves.contains(&"stg_orders"));
    let fct_leaf = mac
        .tree
        .iter()
        .find(|r| r.kind == "model" && r.label == "fct_orders")
        .expect("fct leaf");
    assert_eq!(fct_leaf.depth, 3, "models/marts/core/<model> → depth 3");
    assert_eq!(fct_leaf.model_id, "model.shop.fct_orders");
}

#[test]
fn build_macro_lens_filters_out_vendor_package_macros() {
    let mut manifest = macro_lens_manifest(vec![macro_model(
        "model.shop.orders",
        "models/staging/orders.sql",
        &["macro.dbt_utils.helper"],
    )]);
    manifest.manifest.macro_identity = StrMap::new();
    manifest.manifest.macro_identity.insert(
        "macro.dbt_utils.helper".to_owned(),
        identity("macros/u.sql", "helper", "dbt_utils"),
    );
    let changed = changed(&manifest, &["macro.dbt_utils.helper"]);
    assert!(
        build_macro_lens(&manifest.manifest, changed, ScopeSource::PrDiff, usize::MAX).is_none(),
        "a vendor-only changed set yields no lens",
    );
}

#[test]
fn build_macro_lens_empty_blast_radius_yields_an_empty_tree() {
    let manifest = macro_lens_manifest(vec![macro_model(
        "model.shop.orders",
        "models/staging/orders.sql",
        &["macro.shop.unrelated"],
    )]);
    let changed = changed(&manifest, &["macro.shop.add_dq_flags"]);
    let lens = build_macro_lens(&manifest.manifest, changed, ScopeSource::Baseline, usize::MAX)
        .expect("lens builds");
    assert_eq!(lens.macros[0].impacted_count, 0);
    assert!(lens.macros[0].tree.is_empty());
    assert!(lens.macros[0].impacted_models.is_empty());
}

#[test]
fn line_invokes_macro_matches_a_call_not_a_substring() {
    assert!(line_invokes_macro("  {{ add_dq_flags() }}", "add_dq_flags"));
    assert!(line_invokes_macro(
        "{% set x = add_dq_flags(col) %}",
        "add_dq_flags"
    ));
    assert!(line_invokes_macro("{{ add_dq_flags () }}", "add_dq_flags"));
    assert!(!line_invokes_macro(
        "{{ my_add_dq_flags() }}",
        "add_dq_flags"
    ));
    assert!(!line_invokes_macro(
        "-- see add_dq_flags for details",
        "add_dq_flags"
    ));
}

#[test]
fn line_invokes_macro_empty_name_is_false_and_does_not_hang() {
    assert!(!line_invokes_macro("select foo()", ""));
    assert!(!line_invokes_macro("", ""));
}

#[test]
fn a_call_may_overlap_another_place_of_the_name() {
    assert!(line_invokes_macro("a-a-a(", "a-a"));
    assert!(!line_invokes_macro("aaa(", "aa"));
}

#[test]
fn macro_call_sites_collects_each_invoking_line_with_its_number() {
    let raw = "select *\nfrom t\n  {{ add_dq_flags() }}\nwhere 1=1\n  {{ add_dq_flags(x) }}";
    let sites = macro_call_sites(raw, "add_dq_flags");
    assert_eq!(sites.len(), 2);
    assert_eq!(sites[0].line, 3);
    assert_eq!(sites[0].text, "{{ add_dq_flags() }}");
    assert_eq!(sites[1].line, 5);
    assert_eq!(sites[1].text, "{{ add_dq_flags(x) }}");
}

#[test]
fn macro_call_sites_empty_when_no_invocation() {
    assert!(macro_call_sites("select 1", "add_dq_flags").is_empty());
    assert!(macro_call_sites("", "add_dq_flags").is_empty());
    assert!(macro_call_sites("{{ add_dq_flags() }}", "").is_empty());
}

#[test]
fn build_macro_lens_carries_per_model_sql_and_call_sites() {
    let raw_a = "select *\nfrom orders\n  {{ add_dq_flags() }}";
    let raw_b = "select *\nfrom items\n  {{ add_dq_flags(c) }}\n  {{ add_dq_flags(d) }}";
    let manifest = macro_lens_manifest(vec![
        macro_model_with_raw(
            "model.shop.stg_orders",
            "models/staging/stg_orders.sql",
            &["macro.shop.add_dq_flags"],
            raw_a,
        ),
        macro_model_with_raw(
            "model.shop.fct_orders",
            "models/marts/core/fct_orders.sql",
            &["macro.shop.add_dq_flags"],
            raw_b,
        ),
    ]);
    let changed = changed(&manifest, &["macro.shop.add_dq_flags"]);
    let lens = build_macro_lens(&manifest.manifest, changed, ScopeSource::Baseline, usize::MAX)
        .expect("lens builds");
    let mac = &lens.macros[0];
    assert_eq!(mac.impacted_models.len(), 2);
    let fct = &mac.impacted_models[0];
    assert_eq!(fct.model_id, "model.shop.fct_orders");
    assert_eq!(fct.name, "fct_orders");
    assert_eq!(fct.path, "models/marts/core/fct_orders.sql");
    assert_eq!(fct.call_site_total, 2, "two call sites in fct_orders");
    assert_eq!(fct.call_sites.len(), 2);
    assert_eq!(fct.call_site_cap, MACRO_CALL_SITE_CAP);
    assert!(!fct.sql_lines.is_empty());
    assert!(
        fct.sql_lines
            .iter()
            .all(|l| l.kind == DiffLineKind::Context),
        "inline model SQL is plain context, never a diff",
    );
    let stg = &mac.impacted_models[1];
    assert_eq!(stg.model_id, "model.shop.stg_orders");
    assert_eq!(stg.call_site_total, 1);
}

#[test]
fn build_macro_lens_caps_shown_call_sites_at_the_default() {
    let mut raw = String::from("select *\nfrom t\n");
    for _ in 0..(MACRO_CALL_SITE_CAP + 4) {
        raw.push_str("  {{ add_dq_flags() }}\n");
    }
    let manifest = macro_lens_manifest(vec![macro_model_with_raw(
        "model.shop.busy",
        "models/staging/busy.sql",
        &["macro.shop.add_dq_flags"],
        &raw,
    )]);
    let changed = changed(&manifest, &["macro.shop.add_dq_flags"]);
    let lens = build_macro_lens(&manifest.manifest, changed, ScopeSource::Baseline, usize::MAX)
        .expect("lens builds");
    let im = &lens.macros[0].impacted_models[0];
    assert_eq!(im.call_site_total, MACRO_CALL_SITE_CAP + 4);
    assert_eq!(
        im.call_sites.len(),
        MACRO_CALL_SITE_CAP,
        "shown call sites are capped",
    );
    assert!(im.call_site_total > im.call_sites.len(), "the 'more' case");
}

#[test]
fn build_macro_lens_impacted_model_with_no_raw_code_has_empty_sql_and_no_call_sites() {
    let manifest = macro_lens_manifest(vec![macro_model(
        "model.shop.orders",
        "models/staging/orders.sql",
        &["macro.shop.add_dq_flags"],
    )]);
    let changed = changed(&manifest, &["macro.shop.add_dq_flags"]);
    let lens = build_macro_lens(&manifest.manifest, changed, ScopeSource::Baseline, usize::MAX)
        .expect("lens builds");
    let im = &lens.macros[0].impacted_models[0];
    assert_eq!(im.call_site_total, 0);
    assert!(im.call_sites.is_empty());
    assert!(im.sql_lines.is_empty());
}

#[test]
fn build_macro_lens_caps_inline_bodies_at_the_knob() {
    let manifest = heavy_macro_manifest(25);
    let changed = changed(&manifest, &["macro.shop.add_dq_flags"]);
    let lens = build_macro_lens(&manifest.manifest, changed, ScopeSource::PrDiff, 10)
        .expect("lens builds");
    let mac = &lens.macros[0];
    assert_eq!(mac.impacted_count, 25, "all 25 models are in the radius");
    assert_eq!(mac.inlined_count, 10, "only the cap inlines a body");
    assert_eq!(
        mac.impacted_models.len(),
        25,
        "the selector still lists every model (the list is cheap)",
    );
    let inlined = mac
        .impacted_models
        .iter()
        .filter(|im| im.inline_body)
        .count();
    assert_eq!(inlined, 10, "exactly the cap carries an inline body");
    for im in mac.impacted_models.iter().take(10) {
        assert!(im.inline_body, "{} inlines", im.model_id);
        assert!(!im.sql_lines.is_empty(), "{} has SQL", im.model_id);
    }
    for im in mac.impacted_models.iter().skip(10) {
        assert!(!im.inline_body, "{} is not inlined", im.model_id);
        assert!(im.sql_lines.is_empty(), "{} has no SQL", im.model_id);
        assert!(
            im.call_sites.is_empty(),
            "{} has no call sites",
            im.model_id
        );
        assert_eq!(im.call_site_total, 0, "{} reports zero", im.model_id);
    }
}

#[test]
fn build_macro_lens_below_cap_inlines_every_body() {
    let manifest = heavy_macro_manifest(3);
    let changed = changed(&manifest, &["macro.shop.add_dq_flags"]);
    let lens = build_macro_lens(&manifest.manifest, changed, ScopeSource::PrDiff, 10)
        .expect("lens builds");
    let mac = &lens.macros[0];
    assert_eq!(mac.impacted_count, 3);
    assert_eq!(mac.inlined_count, 3, "below the cap: all inline");
    assert!(
        mac.impacted_models.iter().all(|im| im.inline_body),
        "every model inlines below the cap",
    );
}

#[test]
fn build_macro_lens_cap_zero_inlines_no_body() {
    let manifest = heavy_macro_manifest(4);
    let changed = changed(&manifest, &["macro.shop.add_dq_flags"]);
    let lens = build_macro_lens(&manifest.manifest, changed, ScopeSource::PrDiff, 0)
        .expect("lens builds");
    let mac = &lens.macros[0];
    assert_eq!(mac.inlined_count, 0);
    assert!(
        mac.impacted_models.iter().all(|im| !im.inline_body),
        "a cap of 0 inlines nothing",
    );
    assert_eq!(mac.impacted_models.len(), 4, "the selector still lists all");
}

#[test]
fn an_unknown_package_or_project_keeps_a_macro() {
    let mut project = macro_lens_manifest(vec![]);
    project.manifest.macro_identity = StrMap::new();
    let lens = build_macro_lens(
        &project.manifest,
        changed(&project, &["macro.x.y", "macro.a.b"]),
        ScopeSource::PrDiff,
        1,
    )
    .unwrap();
    let names: Vec<&str> = lens.macros.iter().map(|m| m.name.as_str()).collect();
    assert_eq!(names, ["b", "y"], "in the order of the ids, named by their last part");
    assert_eq!(lens.macros[0].package, "shop");
    assert_eq!(lens.macros[0].path, "");
    project.manifest.project_name = None;
    let lens = build_macro_lens(
        &project.manifest,
        changed(&project, &["macro.x.y"]),
        ScopeSource::PrDiff,
        1,
    )
    .unwrap();
    assert_eq!(lens.macros[0].package, "");
}

#[test]
fn a_diff_is_dropped_without_a_file() {
    let project = macro_lens_manifest(vec![]);
    let mut touched = impact(&project, "macro.shop.other");
    touched.diff = Some(BlockDiff { lines: Vec::new() });
    let mut changed = StrMap::new();
    changed.insert("macro.shop.other".to_owned(), touched);
    let lens = build_macro_lens(&project.manifest, changed, ScopeSource::PrDiff, 1).unwrap();
    assert!(lens.macros[0].diff.is_none());
    assert!(lens.macros[0].body_lines.is_empty());
}

#[test]
fn the_tree_opens_each_directory_once_and_shows_each_model_once() {
    let mut project = macro_lens_manifest(vec![
        macro_model("model.shop.b", "models/a/b.sql", &["m"]),
        macro_model("model.shop.a", "/models/a/a.sql/", &["m"]),
        macro_model("model.shop.c", "models/c.sql", &["m"]),
        macro_model("model.shop.d", "models/a/x/d.sql", &["m"]),
        macro_model("model.shop.e", "", &["m"]),
    ]);
    let mut lost = Node::new("model.shop.f", "model");
    lost.original_file_path = None;
    project.manifest.add_node(lost);
    project.calls.push(("model.shop.f".to_owned(), vec!["m".to_owned()]));
    let rows = impacted_model_tree(&project.manifest, &impact(&project, "m").radius);
    let shown: Vec<(&str, &str, usize)> =
        rows.iter().map(|r| (r.kind, r.label.as_str(), r.depth)).collect();
    assert_eq!(
        shown,
        [
            ("dir", "(unknown path)", 0),
            ("model", "e", 1),
            ("model", "f", 1),
            ("dir", "models", 0),
            ("model", "c", 1),
            ("dir", "a", 1),
            ("model", "a", 2),
            ("model", "b", 2),
            ("dir", "x", 2),
            ("model", "d", 3),
        ],
    );
    assert_eq!(rows[1].model_id, "model.shop.e");
    assert_eq!(rows[0].model_id, "");
}

#[test]
fn the_tree_and_the_list_name_a_versioned_model() {
    let mut project = macro_lens_manifest(vec![]);
    let mut node = Node::new("model.shop.dim.v2", "model");
    node.name = Some("dim".to_owned());
    node.original_file_path = Some("models/dim_v2.sql".to_owned());
    project.manifest.add_node(node);
    let mut radius = StrSet::new();
    radius.insert("model.shop.dim.v2".to_owned());
    assert_eq!(impacted_model_tree(&project.manifest, &radius)[1].label, "dim");
    assert_eq!(impacted_model_views(&project.manifest, &radius, "m", 0)[0].name, "dim");
}

#[test]
fn a_path_splits_into_directories_and_file() {
    assert_eq!(split_dir_path(Some("a/b/c.sql")), (owned(&["a", "b"]), "c.sql".to_owned()));
    assert_eq!(split_dir_path(Some("//c.sql")), (Vec::new(), "c.sql".to_owned()));
    assert_eq!(split_dir_path(Some("/")), (owned(&["(unknown path)"]), String::new()));
    assert_eq!(split_dir_path(None), (owned(&["(unknown path)"]), String::new()));
}

#[test]
fn a_body_ends_with_at_most_one_line_feed() {
    let lines = |body: &str| -> Vec<String> {
        macro_body_context_lines(body).into_iter().map(|l| l.text).collect()
    };
    assert_eq!(lines("a\n\nb\n"), ["a", "", "b"]);
    assert_eq!(lines("a\n\n"), ["a", ""]);
    assert_eq!(lines("\n"), [""]);
    assert!(lines("").is_empty());
}

#[test]
fn a_call_needs_an_edge_and_a_parenthesis() {
    assert!(line_invokes_macro("é m\t (", "m"));
    assert!(line_invokes_macro("xm m(", "m"));
    assert!(!line_invokes_macro("m\u{a0}(", "m"), "only ASCII white space is skipped");
    assert!(!line_invokes_macro("m", "m"));
    assert!(line_invokes_macro("ém(", "m"), "a letter outside ASCII is no identifier byte");
}
