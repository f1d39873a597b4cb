//! The panel on changes of the project file: one row per change, with what
//! the change affects as far as that is known.
use vstd::prelude::*;
use vstd::string::*;
use crate::domain::{leaf, leaf_segment, BlockDiff, DiffLine, DiffLineKind, Manifest};
use crate::json::{side_detail, side_text, sides};
use crate::names::{
    affected_display_names, capped, capped_names, display_name, display_names, displays,
    id_set, listed, var_display_names, CONFIG_AFFECTED_CAP,
};
use crate::order::{sort_texts, sorted_texts};
use crate::table::{in_order, StrMap, StrSet};
use crate::text::{decimal, decimal_text, join, joined, same_text, texts};

verus! {

// ---------------------------------------------------------------------
// Changes of the project file
// ---------------------------------------------------------------------

/// The kind of setting that a change is about.
#[derive(Debug, Clone, Copy, PartialEq, Eq, Structural)]
pub enum ProjectChangeCategory {
    Vars,
    ConfigTree,
    Dispatch,
    Hooks,
    Paths,
    Identity,
    Other,
}

/// Whether the manifest has the operations that the hooks make.
#[derive(Debug, Clone, Copy, PartialEq, Eq, Structural)]
pub enum HookManifestPresence {
    Matched,
    Absent,
    Diverged,
}

/// What is known of a change of hooks.
#[derive(Debug, PartialEq, Eq)]
pub struct HookChangeFacts {
    pub sql_diff: Option<BlockDiff>,
    pub operation_ids: Vec<String>,
    pub manifest: HookManifestPresence,
}

/// A place in the config tree of the project file.
#[derive(Debug, PartialEq, Eq)]
pub struct ConfigLeafPath {
    pub section: String,
    pub segments: Vec<String>,
    pub key: String,
}

/// A setting that reaches a model: its key, and where it is set.
#[derive(Debug, PartialEq, Eq)]
pub struct ConfigAttribution {
    pub key: String,
    pub path: String,
}

/// A model that reads a var through a macro.
#[derive(Debug, PartialEq, Eq)]
pub struct MacroVarHit {
    pub model: String,
    pub via: String,
}

/// What is known of a change of one var.
#[derive(Debug, PartialEq)]
pub struct VarAttribution {
    pub name: String,
    /// The package that the value is scoped to, if any.
    pub package: Option<String>,
    pub old: Option<serde_json::Value>,
    pub new: Option<serde_json::Value>,
    /// The models that read the var in their SQL.
    pub direct: Vec<String>,
    /// The models with config that reads the var.
    pub config: Vec<String>,
    pub via_macros: Vec<MacroVarHit>,
    /// The models that read vars by computed names.
    pub dynamic: Vec<String>,
    pub masked_packages: Vec<String>,
    /// The unit tests that set the var themselves.
    pub insulated_tests: Vec<String>,
}

/// How much was looked through for uses of vars.
#[derive(Debug, Clone, Copy, PartialEq, Eq, Structural)]
pub struct VarScanFootprint {
    pub models_scanned: usize,
    pub macros_scanned: usize,
    pub python_models: usize,
}

/// What is known of a change of vars.
#[derive(Debug, PartialEq)]
pub struct VarChangeFacts {
    pub entries: Vec<VarAttribution>,
    pub footprint: VarScanFootprint,
}

/// A change of the project file.
#[derive(Debug, PartialEq)]
pub struct ProjectChange {
    pub category: ProjectChangeCategory,
    pub label: String,
    pub old: Option<serde_json::Value>,
    pub new: Option<serde_json::Value>,
    pub hook: Option<HookChangeFacts>,
    pub tree: Option<ConfigLeafPath>,
    pub vars: Option<VarChangeFacts>,
}

/// Why the changes could not be told apart.
#[derive(Debug, Clone, Copy, PartialEq, Eq, Structural)]
pub enum ProjectFallbackReason {
    NewParseFailed,
    OldParseFailed,
    OldNotReconstructable,
    FileUnreadable,
}

/// The changes of the project file, or the raw diff where they could not be
/// told apart.
#[derive(Debug, PartialEq)]
pub enum ProjectChangePanel {
    Categorized { changes: Vec<ProjectChange> },
    Fallback { reason: ProjectFallbackReason, raw: Vec<DiffLine> },
}

// ---------------------------------------------------------------------
// Fixed copy
// ---------------------------------------------------------------------

/// The note on a change of vars of which nothing more is known.
pub const VARS_NOTE: &'static str = "blast radius not attributed";

/// The note on a change of the macro search order.
pub const DISPATCH_NOTE: &'static str = "macro search order changed — a project-wide effect. Any model, test, \
             snapshot, or hook may resolve dispatched macros differently after this \
             edit; which ones cannot be attributed statically, because macro \
             resolution happens per call at compile time. Checked: the old and new \
             dispatch values in dbt_project.yml, shown in this row — no call-site \
             resolution was attempted (zero-compute).";

/// The key, the label and the note of a category.
pub open spec fn category_texts(c: ProjectChangeCategory) -> (Seq<char>, Seq<char>, Seq<char>) {
    match c {
        ProjectChangeCategory::Vars => ("vars"@, "vars"@, VARS_NOTE@),
        ProjectChangeCategory::ConfigTree => ("config_tree"@, "config tree"@, ""@),
        ProjectChangeCategory::Dispatch => ("dispatch"@, "dispatch"@, DISPATCH_NOTE@),
        ProjectChangeCategory::Hooks => ("hooks"@, "hooks"@, ""@),
        ProjectChangeCategory::Paths => ("paths"@, "paths"@, ""@),
        ProjectChangeCategory::Identity => ("identity"@, "identity"@, ""@),
        ProjectChangeCategory::Other => ("other"@, "other"@, ""@),
    }
}

/// The key, the label and the note of a category.
pub fn project_category_strings(category: ProjectChangeCategory) -> (r: (
    &'static str,
    &'static str,
    &'static str,
))
    ensures
        (r.0@, r.1@, r.2@) == category_texts(category),
{
    match category {
        ProjectChangeCategory::Vars => ("vars", "vars", VARS_NOTE),
        ProjectChangeCategory::ConfigTree => ("config_tree", "config tree", ""),
        ProjectChangeCategory::Dispatch => ("dispatch", "dispatch", DISPATCH_NOTE),
        ProjectChangeCategory::Hooks => ("hooks", "hooks", ""),
        ProjectChangeCategory::Paths => ("paths", "paths", ""),
        ProjectChangeCategory::Identity => ("identity", "identity", ""),
        ProjectChangeCategory::Other => ("other", "other", ""),
    }
}

/// The note on hooks that were removed.
pub const HOOKS_GONE: &'static str = "no operation nodes remain in the manifest — consistent with this removal";

/// The note on hooks that the manifest does not have.
pub const HOOKS_ABSENT: &'static str = "no matching operation.* nodes in the manifest (checked the manifest nodes \
             map for this project's hook names) — the manifest may predate this edit; \
             the diff is read from dbt_project.yml itself";

/// The end of the note on hooks that the manifest has otherwise.
pub const HOOKS_DIVERGED: &'static str = ") do not match the working-tree hooks \
             — manifest and working tree may be out of sync; the diff is read from \
             dbt_project.yml itself";

/// The note on a change of hooks.
pub open spec fn hook_note(facts: HookChangeFacts) -> Seq<char> {
    let ids = joined(texts(facts.operation_ids@), ", "@);
    match facts.manifest {
        HookManifestPresence::Matched => if facts.operation_ids@.len() == 0 {
            HOOKS_GONE@
        } else {
            "runs in the manifest as "@ + ids
        },
        HookManifestPresence::Absent => HOOKS_ABSENT@,
        HookManifestPresence::Diverged => "the manifest's operation nodes ("@ + ids
            + HOOKS_DIVERGED@,
    }
}

/// The note on a change of hooks: what the manifest has of them.
pub fn hook_row_note(facts: &HookChangeFacts) -> (r: String)
    ensures
        r@ == hook_note(*facts),
{
    match facts.manifest {
        HookManifestPresence::Matched => if facts.operation_ids.len() == 0 {
            HOOKS_GONE.to_owned()
        } else {
            let mut s: String = "runs in the manifest as ".to_owned();
            s.append(join(&facts.operation_ids, ", ").as_str());
            s
        },
        HookManifestPresence::Absent => HOOKS_ABSENT.to_owned(),
        HookManifestPresence::Diverged => {
            let mut s: String = "the manifest's operation nodes (".to_owned();
            s.append(join(&facts.operation_ids, ", ").as_str());
            s.append(HOOKS_DIVERGED);
            s
        },
    }
}

/// The copy where the new file does not parse.
pub const NEW_PARSE_FAILED: &'static str = "dbt_project.yml could not be parsed, so this change could not be \
             categorized — showing the raw diff.";

/// The copy where the old file does not parse.
pub const OLD_PARSE_FAILED: &'static str = "The previous version of dbt_project.yml could not be parsed, so this \
             change could not be categorized — showing the raw diff.";

/// The copy where the old file cannot be had back.
pub const OLD_LOST: &'static str = "Could not reconstruct the previous version of dbt_project.yml from \
             the diff, so this change could not be categorized — showing the raw diff.";

/// The copy where the file cannot be read.
pub const FILE_UNREADABLE: &'static str = "dbt_project.yml changed in this diff, but the file could not be read \
             from the project root — nothing to categorize. Showing the raw diff.";

/// What the panel says where the changes could not be told apart.
pub open spec fn fallback_text(reason: ProjectFallbackReason) -> Seq<char> {
    match reason {
        ProjectFallbackReason::NewParseFailed => NEW_PARSE_FAILED@,
        ProjectFallbackReason::OldParseFailed => OLD_PARSE_FAILED@,
        ProjectFallbackReason::OldNotReconstructable => OLD_LOST@,
        ProjectFallbackReason::FileUnreadable => FILE_UNREADABLE@,
    }
}

/// What the panel says where the changes could not be told apart.
pub fn project_fallback_copy(reason: ProjectFallbackReason) -> (r: &'static str)
    ensures
        r@ == fallback_text(reason),
{
    match reason {
        ProjectFallbackReason::NewParseFailed => NEW_PARSE_FAILED,
        ProjectFallbackReason::OldParseFailed => OLD_PARSE_FAILED,
        ProjectFallbackReason::OldNotReconstructable => OLD_LOST,
        ProjectFallbackReason::FileUnreadable => FILE_UNREADABLE,
    }
}

/// How a change is shown: its old and its new value.
pub fn project_change_detail(change: &ProjectChange) -> (r: String)
    ensures
        r@ == sides(side_text(change.old), side_text(change.new)),
{
    side_detail(&change.old, &change.new)
}

// ---------------------------------------------------------------------
// Models that a config change affects
// ---------------------------------------------------------------------

impl ConfigLeafPath {
    /// The section and the segments with dots between.
    pub open spec fn dotted_text(&self) -> Seq<char> {
        joined(seq![self.section@] + texts(self.segments@), "."@)
    }

    /// The section and the segments with dots between.
    pub fn dotted(&self) -> (r: String)
        ensures
            r@ == self.dotted_text(),
    {
        let mut parts: Vec<String> = Vec::new();
        parts.push(self.section.clone());
        let mut i: usize = 0;
        assert(texts(parts@) == seq![self.section@] + texts(self.segments@).take(0));
        while i < self.segments.len()
            invariant
                i <= self.segments@.len(),
                texts(parts@) == seq![self.section@] + texts(self.segments@).take(i as int),
            decreases self.segments@.len() - i,
        {
            let ghost before = parts@;
            parts.push(self.segments[i].clone());
            assert(texts(parts@) == texts(before).push(self.segments@[i as int]@));
            assert(texts(self.segments@).take(i as int + 1) == texts(self.segments@).take(
                i as int,
            ).push(self.segments@[i as int]@));
            assert(texts(parts@) == seq![self.section@] + texts(self.segments@).take(i as int + 1));
            i += 1;
        }
        assert(texts(self.segments@).take(i as int) == texts(self.segments@));
        join(&parts, ".")
    }
}

/// Among `entries` is one for the setting `key` at `path`.
pub open spec fn attributes(
    entries: Seq<ConfigAttribution>,
    path: Seq<char>,
    key: Seq<char>,
) -> bool {
    exists|k: int|
        0 <= k < entries.len() && (#[trigger] entries[k]).path@ == path && entries[k].key@ == key
}

/// The models that the setting `key` at `path` reaches.
pub open spec fn affected_by(
    attributions: Map<Seq<char>, Vec<ConfigAttribution>>,
    path: Seq<char>,
    key: Seq<char>,
) -> Set<Seq<char>> {
    Set::new(
        |id: Seq<char>| attributions.dom().contains(id) && attributes(attributions[id]@, path, key),
    )
}

/// The models that one setting reaches.
pub struct AffectedLeaf {
    pub path: String,
    pub key: String,
    pub ids: StrSet,
}

/// `l` is about the setting `key` at `path`.
pub open spec fn is_leaf_at(l: AffectedLeaf, path: Seq<char>, key: Seq<char>) -> bool {
    l.path@ == path && l.key@ == key
}

/// The models that `leaves` has for the setting `key` at `path`.
pub open spec fn leaf_ids(leaves: Seq<AffectedLeaf>, path: Seq<char>, key: Seq<char>) -> Set<
    Seq<char>,
> {
    if exists|k: int| 0 <= k < leaves.len() && is_leaf_at(#[trigger] leaves[k], path, key) {
        leaves[choose|k: int|
            0 <= k < leaves.len() && is_leaf_at(#[trigger] leaves[k], path, key)].ids@
    } else {
        Set::empty()
    }
}

/// No setting occurs twice among `leaves`.
pub open spec fn leaves_distinct(leaves: Seq<AffectedLeaf>) -> bool {
    forall|i: int, j: int|
        0 <= i < j < leaves.len() ==> !((#[trigger] leaves[i]).path@ == (
        #[trigger] leaves[j]).path@ && leaves[i].key@ == leaves[j].key@)
}

proof fn lemma_leaf_ids(leaves: Seq<AffectedLeaf>, k: int)
    requires
        leaves_distinct(leaves),
        0 <= k < leaves.len(),
    ensures
        leaf_ids(leaves, leaves[k].path@, leaves[k].key@) == leaves[k].ids@,
{
    let path = leaves[k].path@;
    let key = leaves[k].key@;
    assert(is_leaf_at(leaves[k], path, key));
    let c = choose|c: int| 0 <= c < leaves.len() && is_leaf_at(#[trigger] leaves[c], path, key);
    if c < k {
        assert(!(leaves[c].path@ == leaves[k].path@ && leaves[c].key@ == leaves[k].key@));
    } else if k < c {
        assert(!(leaves[k].path@ == leaves[c].path@ && leaves[k].key@ == leaves[c].key@));
    }
}

fn find_leaf(leaves: &Vec<AffectedLeaf>, path: &str, key: &str) -> (r: Option<usize>)
    ensures
        match r {
            Some(k) => k < leaves@.len() && is_leaf_at(leaves@[k as int], path@, key@),
            None => forall|k: int|
                0 <= k < leaves@.len() ==> !is_leaf_at(#[trigger] leaves@[k], path@, key@),
        },
{
    let mut i: usize = 0;
    while i < leaves.len()
        invariant
            i <= leaves@.len(),
            forall|k: int| 0 <= k < i ==> !is_leaf_at(#[trigger] leaves@[k], path@, key@),
        decreases leaves@.len() - i,
    {
        if same_text(leaves[i].path.as_str(), path) && same_text(leaves[i].key.as_str(), key) {
            return Some(i);
        }
        i += 1;
    }
    None
}

/// Adds the model `id` to those that the setting `key` at `path` reaches.
fn add_affected(leaves: &mut Vec<AffectedLeaf>, path: &str, key: &str, id: &str)
    requires
        leaves_distinct(old(leaves)@),
    ensures
        leaves_distinct(final(leaves)@),
        forall|p: Seq<char>, k: Seq<char>| #[trigger]
            leaf_ids(final(leaves)@, p, k) == if p == path@ && k == key@ {
                leaf_ids(old(leaves)@, p, k).insert(id@)
            } else {
                leaf_ids(old(leaves)@, p, k)
            },
{
    let ghost before = leaves@;
    match find_leaf(leaves, path, key) {
        Some(at) => {
            let mut leaf: AffectedLeaf = leaves.remove(at);
            let ghost ids = leaf.ids@;
            leaf.ids.insert(id.to_owned());
            let ghost changed = leaf;
            leaves.insert(at, leaf);
            let ghost after = leaves@;
            proof {
                assert(after == before.update(at as int, changed));
                assert(leaves_distinct(after)) by {
                    assert forall|i: int, j: int| 0 <= i < j < after.len() implies !((
                    #[trigger] after[i]).path@ == (#[trigger] after[j]).path@ && after[i].key@
                        == after[j].key@) by {
                        assert(!(before[i].path@ == before[j].path@ && before[i].key@
                            == before[j].key@));
                    }
                }
                assert forall|p: Seq<char>, k: Seq<char>| #[trigger]
                    leaf_ids(after, p, k) == if p == path@ && k == key@ {
                        leaf_ids(before, p, k).insert(id@)
                    } else {
                        leaf_ids(before, p, k)
                    } by {
                    lemma_same_settings(before, after, at as int, p, k);
                    lemma_leaf_ids(before, at as int);
                    lemma_leaf_ids(after, at as int);
                }
            }
        },
        None => {
            let mut ids: StrSet = StrSet::new();
            ids.insert(id.to_owned());
            let leaf: AffectedLeaf = AffectedLeaf {
                path: path.to_owned(),
                key: key.to_owned(),
                ids,
            };
            let ghost added = leaf;
            leaves.push(leaf);
            let ghost after = leaves@;
            proof {
                assert(after == before.push(added));
                assert(leaves_distinct(after)) by {
                    assert forall|i: int, j: int| 0 <= i < j < after.len() implies !((
                    #[trigger] after[i]).path@ == (#[trigger] after[j]).path@ && after[i].key@
                        == after[j].key@) by {
                        if j < before.len() {
                            assert(!(before[i].path@ == before[j].path@ && before[i].key@
                                == before[j].key@));
                        } else {
                            assert(!is_leaf_at(before[i], path@, key@));
                        }
                    }
                }
                assert forall|p: Seq<char>, k: Seq<char>| #[trigger]
                    leaf_ids(after, p, k) == if p == path@ && k == key@ {
                        leaf_ids(before, p, k).insert(id@)
                    } else {
                        leaf_ids(before, p, k)
                    } by {
                    lemma_leaf_ids(after, before.len() as int);
                    if p == path@ && k == key@ {
                        assert(leaf_ids(before, p, k) == Set::<Seq<char>>::empty());
                    } else {
                        if exists|x: int|
                            0 <= x < before.len() && is_leaf_at(#[trigger] before[x], p, k) {
                            let x = choose|x: int|
                                0 <= x < before.len() && is_leaf_at(#[trigger] before[x], p, k);
                            assert(after[x] == before[x]);
                            lemma_leaf_ids(before, x);
                            lemma_leaf_ids(after, x);
                        } else {
                            assert forall|x: int| 0 <= x < after.len() implies !is_leaf_at(
                                #[trigger] after[x],
                                p,
                                k,
                            ) by {
                                if x < before.len() {
                                    assert(after[x] == before[x]);
                                    assert(!is_leaf_at(before[x], p, k));
                                }
                            }
                        }
                    }
                }
            }
        },
    }
}

proof fn lemma_same_settings(
    before: Seq<AffectedLeaf>,
    after: Seq<AffectedLeaf>,
    at: int,
    p: Seq<char>,
    k: Seq<char>,
)
    requires
        leaves_distinct(before),
        leaves_distinct(after),
        0 <= at < before.len(),
        after.len() == before.len(),
        after[at].path == before[at].path,
        after[at].key == before[at].key,
        forall|i: int| 0 <= i < before.len() && i != at ==> #[trigger] after[i] == before[i],
    ensures
        !(p == before[at].path@ && k == before[at].key@) ==> leaf_ids(after, p, k) == leaf_ids(
            before,
            p,
            k,
        ),
{
    if !(p == before[at].path@ && k == before[at].key@) {
        if exists|x: int| 0 <= x < before.len() && is_leaf_at(#[trigger] before[x], p, k) {
            let x = choose|x: int|
                0 <= x < before.len() && is_leaf_at(#[trigger] before[x], p, k);
            assert(x != at);
            assert(after[x] == before[x]);
            lemma_leaf_ids(before, x);
            lemma_leaf_ids(after, x);
        } else {
            assert forall|x: int| 0 <= x < after.len() implies !is_leaf_at(
                #[trigger] after[x],
                p,
                k,
            ) by {
                assert(!is_leaf_at(before[x], p, k));
                if x != at {
                    assert(after[x] == before[x]);
                }
            }
        }
    }
}

/// The models that the first `n` of `entries` and the first `k` attributions
/// of the next reach by the setting `key` at `path`.
spec fn affected_upto(
    entries: Seq<(Seq<char>, Vec<ConfigAttribution>)>,
    n: int,
    k: int,
    path: Seq<char>,
    key: Seq<char>,
) -> Set<Seq<char>> {
    Set::new(
        |id: Seq<char>|
            exists|i: int|
                0 <= i <= n && i < entries.len() && (#[trigger] entries[i]).0 == id && attributes(
                    if i < n {
                        entries[i].1@
                    } else {
                        entries[i].1@.take(k)
                    },
                    path,
                    key,
                ),
    )
}

/// The models that each setting reaches. Every setting occurs once.
pub fn affected_models_by_leaf(attributions: &StrMap<Vec<ConfigAttribution>>) -> (r: Vec<
    AffectedLeaf,
>)
    ensures
        leaves_distinct(r@),
        forall|path: Seq<char>, key: Seq<char>| #[trigger]
            leaf_ids(r@, path, key) == affected_by(attributions@, path, key),
{
    let mut out: Vec<AffectedLeaf> = Vec::new();
    let ghost es = attributions.entries();
    let n: usize = attributions.len();
    let mut i: usize = 0;
    proof {
        assert forall|p: Seq<char>, k: Seq<char>| #[trigger]
            leaf_ids(out@, p, k) == affected_upto(es, 0, 0, p, k) by {
            assert forall|id: Seq<char>| !affected_upto(es, 0, 0, p, k).contains(id) by {}
            assert(leaf_ids(out@, p, k) =~= affected_upto(es, 0, 0, p, k));
        }
    }
    while i < n
        invariant
            i <= n == es.len(),
            es == attributions.entries(),
            leaves_distinct(out@),
            forall|p: Seq<char>, k: Seq<char>| #[trigger]
                leaf_ids(out@, p, k) == affected_upto(es, i as int, 0, p, k),
        decreases n - i,
    {
        let id: &String = attributions.key_at(i);
        let list: &Vec<ConfigAttribution> = attributions.value_at(i);
        let mut j: usize = 0;
        while j < list.len()
            invariant
                i < n == es.len(),
                j <= list@.len(),
                *list == es[i as int].1,
                id@ == es[i as int].0,
                leaves_distinct(out@),
                forall|p: Seq<char>, k: Seq<char>| #[trigger]
                    leaf_ids(out@, p, k) == affected_upto(es, i as int, j as int, p, k),
            decreases list@.len() - j,
        {
            let ghost before = out@;
            let a: &ConfigAttribution = &list[j];
            add_affected(&mut out, a.path.as_str(), a.key.as_str(), id.as_str());
            proof {
                assert forall|p: Seq<char>, k: Seq<char>| #[trigger]
                    leaf_ids(out@, p, k) == affected_upto(es, i as int, j as int + 1, p, k) by {
                    let s = affected_upto(es, i as int, j as int, p, k);
                    let t = affected_upto(es, i as int, j as int + 1, p, k);
                    assert(leaf_ids(before, p, k) == s);
                    lemma_one_more(es, i as int, j as int, p, k);
                    assert(leaf_ids(out@, p, k) =~= t);
                }
            }
            j += 1;
        }
        proof {
            assert forall|p: Seq<char>, k: Seq<char>| #[trigger]
                leaf_ids(out@, p, k) == affected_upto(es, i as int + 1, 0, p, k) by {
                lemma_next_entry(es, i as int, p, k);
                assert(leaf_ids(out@, p, k) == affected_upto(es, i as int, j as int, p, k));
            }
        }
        i += 1;
    }
    proof {
        assert forall|p: Seq<char>, k: Seq<char>| #[trigger]
            leaf_ids(out@, p, k) == affected_by(attributions@, p, k) by {
            let s = affected_upto(es, n as int, 0, p, k);
            let t = affected_by(attributions@, p, k);
            assert forall|id: Seq<char>| s.contains(id) <==> t.contains(id) by {
                if s.contains(id) {
                    let x = choose|x: int|
                        0 <= x <= n && x < es.len() && (#[trigger] es[x]).0 == id && attributes(
                            if x < n {
                                es[x].1@
                            } else {
                                es[x].1@.take(0)
                            },
                            p,
                            k,
                        );
                    crate::table::lemma_lookup(es, x);
                }
                if t.contains(id) {
                    let x = choose|x: int| 0 <= x < es.len() && (#[trigger] es[x]).0 == id;
                    crate::table::lemma_lookup(es, x);
                    assert(es[x].0 == id);
                }
            }
            assert(s =~= t);
        }
    }
    out
}

proof fn lemma_one_more(
    es: Seq<(Seq<char>, Vec<ConfigAttribution>)>,
    i: int,
    j: int,
    p: Seq<char>,
    k: Seq<char>,
)
    requires
        0 <= i < es.len(),
        0 <= j < es[i].1@.len(),
    ensures
        affected_upto(es, i, j + 1, p, k) == if es[i].1@[j].path@ == p && es[i].1@[j].key@ == k {
            affected_upto(es, i, j, p, k).insert(es[i].0)
        } else {
            affected_upto(es, i, j, p, k)
        },
{
    let s = affected_upto(es, i, j, p, k);
    let t = affected_upto(es, i, j + 1, p, k);
    let hit = es[i].1@[j].path@ == p && es[i].1@[j].key@ == k;
    let short = es[i].1@.take(j);
    let long = es[i].1@.take(j + 1);
    assert(attributes(long, p, k) == (attributes(short, p, k) || hit)) by {
        if attributes(long, p, k) {
            let x = choose|x: int|
                0 <= x < long.len() && (#[trigger] long[x]).path@ == p && long[x].key@ == k;
            if x < j {
                assert(short[x].path@ == p);
            }
        }
        if attributes(short, p, k) {
            let x = choose|x: int|
                0 <= x < short.len() && (#[trigger] short[x]).path@ == p && short[x].key@ == k;
            assert(long[x].path@ == p);
        }
        if hit {
            assert(long[j].path@ == p);
        }
    }
    assert forall|id: Seq<char>| t.contains(id) <==> (s.contains(id) || (hit && id == es[i].0)) by {
        if t.contains(id) {
            let x = choose|x: int|
                0 <= x <= i && x < es.len() && (#[trigger] es[x]).0 == id && attributes(
                    if x < i {
                        es[x].1@
                    } else {
                        es[x].1@.take(j + 1)
                    },
                    p,
                    k,
                );
            assert(es[x].0 == id);
        }
        if s.contains(id) {
            let x = choose|x: int|
                0 <= x <= i && x < es.len() && (#[trigger] es[x]).0 == id && attributes(
                    if x < i {
                        es[x].1@
                    } else {
                        es[x].1@.take(j)
                    },
                    p,
                    k,
                );
            assert(es[x].0 == id);
        }
        if hit && id == es[i].0 {
            assert(es[i].0 == id);
        }
    }
    if hit {
        assert(t =~= s.insert(es[i].0));
    } else {
        assert(t =~= s);
    }
}

proof fn lemma_next_entry(
    es: Seq<(Seq<char>, Vec<ConfigAttribution>)>,
    i: int,
    p: Seq<char>,
    k: Seq<char>,
)
    requires
        0 <= i < es.len(),
    ensures
        affected_upto(es, i + 1, 0, p, k) == affected_upto(es, i, es[i].1@.len() as int, p, k),
{
    let n = es[i].1@.len() as int;
    let s = affected_upto(es, i, n, p, k);
    let t = affected_upto(es, i + 1, 0, p, k);
    assert(es[i].1@.take(n) == es[i].1@);
    assert forall|id: Seq<char>| t.contains(id) <==> s.contains(id) by {
        if t.contains(id) {
            let x = choose|x: int|
                0 <= x <= i + 1 && x < es.len() && (#[trigger] es[x]).0 == id && attributes(
                    if x < i + 1 {
                        es[x].1@
                    } else {
                        es[x].1@.take(0)
                    },
                    p,
                    k,
                );
            assert(es[x].0 == id);
        }
        if s.contains(id) {
            let x = choose|x: int|
                0 <= x <= i && x < es.len() && (#[trigger] es[x]).0 == id && attributes(
                    if x < i {
                        es[x].1@
                    } else {
                        es[x].1@.take(n)
                    },
                    p,
                    k,
                );
            assert(es[x].0 == id);
        }
    }
    assert(s =~= t);
}

/// What is said of the models that a setting reaches: a sentence, and the
/// names apart where the sentence does not list them.
pub open spec fn affected_text(m: Manifest, ids: Seq<Seq<char>>) -> (
    Seq<char>,
    Seq<Seq<char>>,
) {
    let names = sorted_texts(display_names(m, ids));
    let count = "affects "@ + decimal(ids.len()) + (if ids.len() == 1 {
        " model"@
    } else {
        " models"@
    });
    if ids.len() == 0 {
        ("affects 0 models in this manifest"@, Seq::empty())
    } else if ids.len() <= CONFIG_AFFECTED_CAP {
        (count + " — widened into report scope: "@ + joined(names, ", "@), Seq::empty())
    } else {
        (count + " — widened into report scope, listed below"@, names)
    }
}

/// What is said of the models that a setting reaches. Up to the cap the
/// sentence lists the names; above it they come apart.
pub fn affected_models_strings(current: &Manifest, ids: &StrSet) -> (r: (String, Vec<String>))
    ensures
        (r.0@, texts(r.1@)) == affected_text(*current, in_order(ids@)),
{
    let count: usize = ids.len();
    let none: Vec<String> = Vec::new();
    assert(texts(none@) == Seq::<Seq<char>>::empty());
    if count == 0 {
        return ("affects 0 models in this manifest".to_owned(), none);
    }
    let names: Vec<String> = affected_display_names(current, ids);
    let mut s: String = "affects ".to_owned();
    s.append(decimal_text(count).as_str());
    if count == 1 {
        s.append(" model");
    } else {
        s.append(" models");
    }
    if count <= CONFIG_AFFECTED_CAP {
        s.append(" — widened into report scope: ");
        s.append(join(&names, ", ").as_str());
        (s, none)
    } else {
        s.append(" — widened into report scope, listed below");
        (s, names)
    }
}

// ---------------------------------------------------------------------
// Vars
// ---------------------------------------------------------------------

/// A line on the models that read a var in one way.
#[derive(Debug, PartialEq, Eq)]
pub struct VarTierLineView {
    pub tier_key: &'static str,
    pub tier_label: &'static str,
    pub text: String,
    /// The names of the models, where the text does not list them.
    pub overflow: Vec<String>,
}

/// The texts of such a line.
pub struct TierLineText {
    pub tier_key: Seq<char>,
    pub tier_label: Seq<char>,
    pub text: Seq<char>,
    pub overflow: Seq<Seq<char>>,
}

impl View for VarTierLineView {
    type V = TierLineText;

    open spec fn view(&self) -> TierLineText {
        TierLineText {
            tier_key: self.tier_key@,
            tier_label: self.tier_label@,
            text: self.text@,
            overflow: texts(self.overflow@),
        }
    }
}

/// The line on `models` models that are listed as `names`, with the claim in
/// the singular and in the plural; none without names.
pub open spec fn tier_line(
    key: Seq<char>,
    label: Seq<char>,
    one: Seq<char>,
    many: Seq<char>,
    models: nat,
    names: Seq<Seq<char>>,
) -> Option<TierLineText> {
    let count = "at least "@ + decimal(models) + (if models == 1 {
        " model "@ + one
    } else {
        " models "@ + many
    });
    if names.len() == 0 {
        None
    } else {
        Some(
            TierLineText {
                tier_key: key,
                tier_label: label,
                text: if capped(names).1.len() == 0 {
                    count + ": "@ + capped(names).0
                } else {
                    count + " \u{2014} listed, not individually rendered"@
                },
                overflow: capped(names).1,
            },
        )
    }
}

/// The view of an optional line.
pub open spec fn opt_line(l: Option<VarTierLineView>) -> Option<TierLineText> {
    match l {
        Some(v) => Some(v@),
        None => None,
    }
}

/// The line on `count` models that are listed as `names`; none without names.
/// Above the cap the names come apart.
pub fn var_tier_line(
    tier_key: &'static str,
    tier_label: &'static str,
    claim_one: &str,
    claim_many: &str,
    count: usize,
    names: Vec<String>,
) -> (r: Option<VarTierLineView>)
    ensures
        opt_line(r) == tier_line(
            tier_key@,
            tier_label@,
            claim_one@,
            claim_many@,
            count as nat,
            texts(names@),
        ),
{
    assert(texts(names@).len() == names@.len());
    if names.len() == 0 {
        return None;
    }
    let mut text: String = "at least ".to_owned();
    text.append(decimal_text(count).as_str());
    let mut claim: String = if count == 1 {
        " model ".to_owned()
    } else {
        " models ".to_owned()
    };
    claim.append(
        if count == 1 {
            claim_one
        } else {
            claim_many
        },
    );
    text.append(claim.as_str());
    let (inline, overflow) = capped_names(names);
    assert(texts(overflow@).len() == overflow@.len());
    if overflow.len() == 0 {
        text.append(": ");
        text.append(inline.as_str());
    } else {
        text.append(" \u{2014} listed, not individually rendered");
    }
    Some(VarTierLineView { tier_key, tier_label, text, overflow })
}

/// The models of a list of hits.
pub open spec fn hit_models(hits: Seq<MacroVarHit>) -> Seq<Seq<char>> {
    Seq::new(hits.len(), |i: int| hits[i].model@)
}

/// How the hit at `i` is listed: the model, and the macro that it reads the
/// var through.
pub open spec fn hit_name(m: Manifest, hits: Seq<MacroVarHit>, i: int) -> Seq<char> {
    display_name(m, hit_models(hits), i) + " (via "@ + leaf(hits[i].via@) + ")"@
}

/// How a list of hits is listed, in order.
pub open spec fn macro_names(m: Manifest, hits: Seq<MacroVarHit>) -> Seq<Seq<char>> {
    sorted_texts(Seq::new(hits.len(), |i: int| hit_name(m, hits, i)))
}

/// The models of a list of hits.
fn models_hit(hits: &Vec<MacroVarHit>) -> (r: Vec<String>)
    ensures
        texts(r@) == hit_models(hits@),
{
    let mut models: Vec<String> = Vec::new();
    let mut i: usize = 0;
    while i < hits.len()
        invariant
            i <= hits@.len(),
            texts(models@) == hit_models(hits@).take(i as int),
        decreases hits@.len() - i,
    {
        let ghost before = models@;
        models.push(hits[i].model.clone());
        assert(texts(models@) == texts(before).push(hits@[i as int].model@));
        assert(hit_models(hits@).take(i as int + 1) == hit_models(hits@).take(i as int).push(
            hits@[i as int].model@,
        ));
        i += 1;
    }
    assert(hit_models(hits@).take(i as int) == hit_models(hits@));
    models
}

/// How the models that read a var through macros are listed, in order: each
/// with every macro that it reads the var through.
pub fn macro_tier_names(current: &Manifest, hits: &Vec<MacroVarHit>) -> (r: Vec<String>)
    ensures
        texts(r@) == macro_names(*current, hits@),
{
    let models: Vec<String> = models_hit(hits);
    let shown: Vec<String> = displays(current, &models);
    let ghost all = Seq::new(hits@.len(), |i: int| hit_name(*current, hits@, i));
    assert(texts(shown@).len() == shown@.len());
    let mut names: Vec<String> = Vec::new();
    let mut k: usize = 0;
    while k < hits.len()
        invariant
            k <= hits@.len(),
            shown@.len() == hits@.len(),
            texts(shown@) == display_names(*current, hit_models(hits@)),
            all == Seq::new(hits@.len(), |i: int| hit_name(*current, hits@, i)),
            texts(names@) == all.take(k as int),
        decreases hits@.len() - k,
    {
        assert(texts(shown@)[k as int] == shown@[k as int]@);
        let mut s: String = shown[k].clone();
        s.append(" (via ");
        s.append(leaf_segment(hits[k].via.as_str()));
        s.append(")");
        let ghost before = names@;
        let ghost name = s@;
        names.push(s);
        assert(texts(names@) == texts(before).push(name));
        assert(all.take(k as int + 1) == all.take(k as int).push(name));
        k += 1;
    }
    assert(all.take(k as int) == all);
    sort_texts(names)
}

/// `s` with the line, if there is one.
pub open spec fn with_line(s: Seq<TierLineText>, l: Option<TierLineText>) -> Seq<TierLineText> {
    match l {
        Some(x) => s.push(x),
        None => s,
    }
}

/// The lines on the models that read a var: in their SQL, in their config,
/// through macros.
pub open spec fn tier_lines(m: Manifest, e: VarAttribution) -> Seq<TierLineText> {
    let by_sql = listed(m, texts(e.direct@));
    let by_config = listed(m, texts(e.config@));
    let direct = tier_line(
        "direct"@,
        "DIRECT"@,
        "reads this var directly in SQL"@,
        "read this var directly in SQL"@,
        by_sql.len(),
        by_sql,
    );
    let config = tier_line(
        "config"@,
        "CONFIG"@,
        "carries config driven by this var"@,
        "carry config driven by this var"@,
        by_config.len(),
        by_config,
    );
    let by_macro = tier_line(
        "macro"@,
        "MACRO"@,
        "reads this var through its macro closure"@,
        "read this var through their macro closure"@,
        in_order(hit_models(e.via_macros@).to_set()).len(),
        macro_names(m, e.via_macros@),
    );
    with_line(with_line(with_line(Seq::empty(), direct), config), by_macro)
}

/// The views of a list of lines.
pub open spec fn line_texts(v: Seq<VarTierLineView>) -> Seq<TierLineText> {
    v.map_values(|l: VarTierLineView| l@)
}

fn push_line(out: &mut Vec<VarTierLineView>, line: Option<VarTierLineView>)
    ensures
        line_texts(final(out)@) == with_line(line_texts(old(out)@), opt_line(line)),
{
    if let Some(l) = line {
        let ghost before = out@;
        let ghost x = l@;
        out.push(l);
        assert(line_texts(out@) == line_texts(before).push(x));
    }
}

/// The lines on the models that read a var: in their SQL, in their config,
/// through macros. A way that no model reads it in has no line.
pub fn var_entry_tier_lines(current: &Manifest, entry: &VarAttribution) -> (r: Vec<VarTierLineView>)
    ensures
        line_texts(r@) == tier_lines(*current, *entry),
{
    let by_sql: Vec<String> = var_display_names(current, &entry.direct);
    let by_config: Vec<String> = var_display_names(current, &entry.config);
    let by_macro: StrSet = id_set(&models_hit(&entry.via_macros));
    assert(texts(by_sql@).len() == by_sql@.len());
    assert(texts(by_config@).len() == by_config@.len());
    let mut out: Vec<VarTierLineView> = Vec::new();
    assert(line_texts(out@) == Seq::<TierLineText>::empty());
    push_line(
        &mut out,
        var_tier_line(
            "direct",
            "DIRECT",
            "reads this var directly in SQL",
            "read this var directly in SQL",
            by_sql.len(),
            by_sql,
        ),
    );
    push_line(
        &mut out,
        var_tier_line(
            "config",
            "CONFIG",
            "carries config driven by this var",
            "carry config driven by this var",
            by_config.len(),
            by_config,
        ),
    );
    push_line(
        &mut out,
        var_tier_line(
            "macro",
            "MACRO",
            "reads this var through its macro closure",
            "read this var through their macro closure",
            by_macro.len(),
            macro_tier_names(current, &entry.via_macros),
        ),
    );
    out
}

/// The end of the note on packages with a value of their own.
pub const MASKED_END: &'static str = ": a package-scoped value pins this var there, so this edit \
             does not reach those models (package vars outrank global vars)";

/// The end of the note on unit tests with a value of their own.
pub const INSULATED_END: &'static str = " insulated from this edit \
             (the override always wins): ";

/// The note on models that read vars by computed names.
pub const DYNAMIC_CLAIM: &'static str = " var() with a computed name and cannot be ruled out";

/// The note where no model reads the var.
pub const NO_READERS: &'static str = "no referencing models found by the static scan";

/// The last parts of a list of ids.
pub open spec fn leaves_of(ids: Seq<Seq<char>>) -> Seq<Seq<char>> {
    ids.map_values(|id: Seq<char>| leaf(id))
}

/// The note on packages with a value of their own.
pub open spec fn masked_note(packages: Seq<Seq<char>>) -> Seq<char> {
    "masked for "@ + joined(packages, ", "@) + MASKED_END@
}

/// The note on unit tests with a value of their own.
pub open spec fn insulated_note(tests: Seq<Seq<char>>) -> Seq<char> {
    let claim = if tests.len() == 1 {
        " unit test pins this var in overrides.vars and is"@
    } else {
        " unit tests pin this var in overrides.vars and are"@
    };
    decimal(tests.len()) + claim + INSULATED_END@ + joined(leaves_of(tests), ", "@)
}

/// The note on models that read vars by computed names.
pub open spec fn dynamic_note(m: Manifest, models: Seq<Seq<char>>) -> Seq<char> {
    let claim = if models.len() == 1 {
        " model calls"@
    } else {
        " models call"@
    };
    let names = capped(listed(m, models));
    let sentence = decimal(models.len()) + claim + DYNAMIC_CLAIM@;
    if names.1.len() == 0 {
        sentence + ": "@ + names.0
    } else {
        sentence
    }
}

/// `s` with the note, where it applies.
pub open spec fn with_note(s: Seq<Seq<char>>, applies: bool, note: Seq<char>) -> Seq<Seq<char>> {
    if applies {
        s.push(note)
    } else {
        s
    }
}

/// The notes on a change of a var.
pub open spec fn entry_notes(m: Manifest, e: VarAttribution) -> Seq<Seq<char>> {
    let none = Seq::<Seq<char>>::empty();
    let a = with_note(none, e.masked_packages@.len() > 0, masked_note(texts(e.masked_packages@)));
    let b = with_note(a, e.insulated_tests@.len() > 0, insulated_note(texts(e.insulated_tests@)));
    let c = with_note(b, e.dynamic@.len() > 0, dynamic_note(m, texts(e.dynamic@)));
    with_note(
        c,
        e.direct@.len() == 0 && e.config@.len() == 0 && e.via_macros@.len() == 0,
        NO_READERS@,
    )
}

fn push_note(out: &mut Vec<String>, note: String)
    ensures
        texts(final(out)@) == texts(old(out)@).push(note@),
{
    let ghost before = out@;
    out.push(note);
    assert(texts(out@) == texts(before).push(note@));
}

fn leaf_names(ids: &Vec<String>) -> (r: Vec<String>)
    ensures
        texts(r@) == leaves_of(texts(ids@)),
{
    let mut out: Vec<String> = Vec::new();
    let mut i: usize = 0;
    while i < ids.len()
        invariant
            i <= ids@.len(),
            texts(out@) == leaves_of(texts(ids@)).take(i as int),
        decreases ids@.len() - i,
    {
        let ghost before = out@;
        out.push(leaf_segment(ids[i].as_str()).to_owned());
        assert(texts(out@) == texts(before).push(leaf(ids@[i as int]@)));
        assert(leaves_of(texts(ids@)).take(i as int + 1) == leaves_of(texts(ids@)).take(
            i as int,
        ).push(leaf(ids@[i as int]@)));
        i += 1;
    }
    assert(leaves_of(texts(ids@)).take(i as int) == leaves_of(texts(ids@)));
    out
}

/// The notes on a change of a var: packages and unit tests that it does not
/// reach, models that cannot be ruled out, or that no model was found.
pub fn var_entry_notes(current: &Manifest, entry: &VarAttribution) -> (r: Vec<String>)
    ensures
        texts(r@) == entry_notes(*current, *entry),
{
    let mut notes: Vec<String> = Vec::new();
    assert(texts(notes@) == Seq::<Seq<char>>::empty());
    assert(texts(entry.insulated_tests@).len() == entry.insulated_tests@.len());
    assert(texts(entry.dynamic@).len() == entry.dynamic@.len());
    if entry.masked_packages.len() > 0 {
        let mut s: String = "masked for ".to_owned();
        s.append(join(&entry.masked_packages, ", ").as_str());
        s.append(MASKED_END);
        push_note(&mut notes, s);
    }
    if entry.insulated_tests.len() > 0 {
        let count: usize = entry.insulated_tests.len();
        let mut s: String = decimal_text(count);
        if count == 1 {
            s.append(" unit test pins this var in overrides.vars and is");
        } else {
            s.append(" unit tests pin this var in overrides.vars and are");
        }
        s.append(INSULATED_END);
        let names: Vec<String> = leaf_names(&entry.insulated_tests);
        s.append(join(&names, ", ").as_str());
        push_note(&mut notes, s);
    }
    if entry.dynamic.len() > 0 {
        let count: usize = entry.dynamic.len();
        let mut s: String = decimal_text(count);
        if count == 1 {
            s.append(" model calls");
        } else {
            s.append(" models call");
        }
        s.append(DYNAMIC_CLAIM);
        let (inline, overflow) = capped_names(var_display_names(current, &entry.dynamic));
        assert(texts(overflow@).len() == overflow@.len());
        if overflow.len() == 0 {
            s.append(": ");
            s.append(inline.as_str());
        }
        push_note(&mut notes, s);
    }
    if entry.direct.len() == 0 && entry.config.len() == 0 && entry.via_macros.len() == 0 {
        push_note(&mut notes, NO_READERS.to_owned());
    }
    notes
}

/// A change of one var as the panel shows it.
#[derive(Debug, PartialEq, Eq)]
pub struct ProjectVarEntryView {
    pub name: String,
    pub scope: String,
    pub detail: String,
    pub tier_lines: Vec<VarTierLineView>,
    pub notes: Vec<String>,
}

/// `v` shows the change `e` of a var.
pub open spec fn shows_var(v: ProjectVarEntryView, m: Manifest, e: VarAttribution) -> bool {
    &&& v.name == e.name
    &&& v.scope@ == match e.package {
        Some(p) => "package-scoped: "@ + p@,
        None => Seq::<char>::empty(),
    }
    &&& v.detail@ == sides(side_text(e.old), side_text(e.new))
    &&& line_texts(v.tier_lines@) == tier_lines(m, e)
    &&& texts(v.notes@) == entry_notes(m, e)
}

/// `out` shows the changes of vars, in order.
pub open spec fn shows_vars(
    out: Seq<ProjectVarEntryView>,
    m: Manifest,
    entries: Seq<VarAttribution>,
) -> bool {
    &&& out.len() == entries.len()
    &&& forall|i: int| 0 <= i < out.len() ==> shows_var(#[trigger] out[i], m, entries[i])
}

/// The changes of vars as the panel shows them.
pub fn var_entry_views(current: &Manifest, facts: &VarChangeFacts) -> (r: Vec<
    ProjectVarEntryView,
>)
    ensures
        shows_vars(r@, *current, facts.entries@),
{
    let mut out: Vec<ProjectVarEntryView> = Vec::new();
    let mut i: usize = 0;
    while i < facts.entries.len()
        invariant
            i <= facts.entries@.len(),
            out@.len() == i,
            forall|j: int|
                0 <= j < i ==> shows_var(#[trigger] out@[j], *current, facts.entries@[j]),
        decreases facts.entries@.len() - i,
    {
        let entry: &VarAttribution = &facts.entries[i];
        let scope: String = match &entry.package {
            Some(p) => {
                let mut s: String = "package-scoped: ".to_owned();
                s.append(p.as_str());
                s
            },
            None => String::new(),
        };
        out.push(
            ProjectVarEntryView {
                name: entry.name.clone(),
                scope,
                detail: side_detail(&entry.old, &entry.new),
                tier_lines: var_entry_tier_lines(current, entry),
                notes: var_entry_notes(current, entry),
            },
        );
        i += 1;
    }
    out
}

/// The beginning of the note on a change of vars.
pub const VARS_HEAD: &'static str = "Blast radius is not fully attributable statically \u{2014} the listed counts \
         are \u{201c}at least\u{201d}, never exact. Not attributable: dynamic var() \
         names, var-to-var value indirection, CLI --vars overrides (CLI values outrank \
         everything shown here), Python models. Checked: ";

/// The end of the note on a change of vars.
pub const VARS_TAIL: &'static str = ". An inline var() default never overrides \
         a project value. Models disabled by this edit drop out of the manifest and \
         cannot be listed. Referencing models are contextualized here, never widened \
         into report scope.";

/// The note on a change of vars: what was looked through, and what that
/// cannot find.
pub open spec fn vars_note(f: VarScanFootprint) -> Seq<char> {
    let models = if f.models_scanned == 1 {
        " model's"@
    } else {
        " models'"@
    };
    let macros = if f.macros_scanned == 1 {
        " macro body"@
    } else {
        " macro bodies"@
    };
    let python = if f.python_models > 0 {
        " ("@ + decimal(f.python_models as nat) + " Python models could not be scanned)"@
    } else {
        Seq::<char>::empty()
    };
    VARS_HEAD@ + decimal(f.models_scanned as nat) + models + " SQL and configs plus "@ + decimal(
        f.macros_scanned as nat,
    ) + macros + python + VARS_TAIL@
}

/// The note on a change of vars: what was looked through, and what that
/// cannot find.
pub fn vars_row_note(footprint: &VarScanFootprint) -> (r: String)
    ensures
        r@ == vars_note(*footprint),
{
    let mut python: String = String::new();
    if footprint.python_models > 0 {
        let mut s: String = " (".to_owned();
        s.append(decimal_text(footprint.python_models).as_str());
        s.append(" Python models could not be scanned)");
        python = s;
    }
    let mut s: String = VARS_HEAD.to_owned();
    s.append(decimal_text(footprint.models_scanned).as_str());
    if footprint.models_scanned == 1 {
        s.append(" model's");
    } else {
        s.append(" models'");
    }
    s.append(" SQL and configs plus ");
    s.append(decimal_text(footprint.macros_scanned).as_str());
    if footprint.macros_scanned == 1 {
        s.append(" macro body");
    } else {
        s.append(" macro bodies");
    }
    s.append(python.as_str());
    s.append(VARS_TAIL);
    s
}

// ---------------------------------------------------------------------
// Rows and panel
// ---------------------------------------------------------------------

/// A row of the panel.
#[derive(Debug, PartialEq, Eq)]
pub struct ProjectPanelRowView {
    pub category_key: &'static str,
    pub category_label: &'static str,
    pub label: String,
    pub detail: String,
    pub note: String,
    pub affected_text: String,
    pub affected_overflow: Vec<String>,
    pub tier: &'static str,
    pub banner: bool,
    pub hook_slot: bool,
    pub var_entries: Vec<ProjectVarEntryView>,
}

/// The change has a diff of the SQL of its hooks.
pub open spec fn has_hook_diff(change: ProjectChange) -> bool {
    change.hook matches Some(h) && h.sql_diff is Some
}

/// The models that the setting of a change reaches.
pub open spec fn change_ids(
    change: ProjectChange,
    attributions: Map<Seq<char>, Vec<ConfigAttribution>>,
) -> Set<Seq<char>> {
    match change.tree {
        Some(tree) => affected_by(attributions, tree.dotted_text(), tree.key@),
        None => Set::empty(),
    }
}

/// The models that `leaves` has for the setting of a change.
pub open spec fn change_leaf_ids(change: ProjectChange, leaves: Seq<AffectedLeaf>) -> Set<
    Seq<char>,
> {
    match change.tree {
        Some(tree) => leaf_ids(leaves, tree.dotted_text(), tree.key@),
        None => Set::empty(),
    }
}

/// What a row says of the models `ids` that its setting reaches: something
/// only for a change of the config of models.
pub open spec fn row_affected(m: Manifest, change: ProjectChange, ids: Set<Seq<char>>) -> (
    Seq<char>,
    Seq<Seq<char>>,
) {
    match change.tree {
        Some(tree) => if tree.section@ == "models"@ {
            affected_text(m, in_order(ids))
        } else {
            (Seq::empty(), Seq::empty())
        },
        None => (Seq::empty(), Seq::empty()),
    }
}

/// The note of a row: on hooks, else on vars, else on the category.
pub open spec fn row_note(change: ProjectChange) -> Seq<char> {
    match (change.hook, change.vars) {
        (Some(h), _) => hook_note(h),
        (None, Some(v)) => vars_note(v.footprint),
        (None, None) => category_texts(change.category).2,
    }
}

/// `row` shows `change`, whose setting reaches the models `ids`.
pub open spec fn shows_row(
    row: ProjectPanelRowView,
    m: Manifest,
    change: ProjectChange,
    ids: Set<Seq<char>>,
) -> bool {
    let dispatch = change.category == ProjectChangeCategory::Dispatch;
    &&& row.category_key@ == category_texts(change.category).0
    &&& row.category_label@ == category_texts(change.category).1
    &&& row.label == change.label
    &&& row.detail@ == if has_hook_diff(change) || change.vars is Some {
        Seq::<char>::empty()
    } else {
        sides(side_text(change.old), side_text(change.new))
    }
    &&& row.note@ == row_note(change)
    &&& (row.affected_text@, texts(row.affected_overflow@)) == row_affected(m, change, ids)
    &&& row.tier@ == if dispatch {
        "UNKNOWN"@
    } else {
        ""@
    }
    &&& row.banner == dispatch
    &&& row.hook_slot == has_hook_diff(change)
    &&& match change.vars {
        Some(v) => shows_vars(row.var_entries@, m, v.entries@),
        None => row.var_entries@.len() == 0,
    }
}

/// The texts on the models that a change affects.
fn affected_strings(
    current: &Manifest,
    change: &ProjectChange,
    affected: &Vec<AffectedLeaf>,
) -> (r: (String, Vec<String>))
    requires
        leaves_distinct(affected@),
    ensures
        (r.0@, texts(r.1@)) == row_affected(
            *current,
            *change,
            change_leaf_ids(*change, affected@),
        ),
{
    let none: Vec<String> = Vec::new();
    assert(texts(none@) == Seq::<Seq<char>>::empty());
    match &change.tree {
        Some(tree) => if same_text(tree.section.as_str(), "models") {
            let path: String = tree.dotted();
            match find_leaf(affected, path.as_str(), tree.key.as_str()) {
                Some(k) => {
                    proof {
                        lemma_leaf_ids(affected@, k as int);
                    }
                    affected_models_strings(current, &affected[k].ids)
                },
                None => {
                    let empty: StrSet = StrSet::new();
                    affected_models_strings(current, &empty)
                },
            }
        } else {
            (String::new(), none)
        },
        None => (String::new(), none),
    }
}

/// The row of a change, given the models that each setting reaches.
pub fn project_panel_row(
    current: &Manifest,
    change: &ProjectChange,
    affected: &Vec<AffectedLeaf>,
) -> (r: ProjectPanelRowView)
    requires
        leaves_distinct(affected@),
    ensures
        shows_row(r, *current, *change, change_leaf_ids(*change, affected@)),
{
    let (category_key, category_label, note) = project_category_strings(change.category);
    let (affected_text, affected_overflow) = affected_strings(current, change, affected);
    let hook_diff: bool = match &change.hook {
        Some(h) => h.sql_diff.is_some(),
        None => false,
    };
    let is_dispatch: bool = change.category == ProjectChangeCategory::Dispatch;
    let detail: String = if hook_diff || change.vars.is_some() {
        String::new()
    } else {
        project_change_detail(change)
    };
    let note_text: String = match (&change.hook, &change.vars) {
        (Some(hook), _) => hook_row_note(hook),
        (None, Some(facts)) => vars_row_note(&facts.footprint),
        (None, None) => note.to_owned(),
    };
    let var_entries: Vec<ProjectVarEntryView> = match &change.vars {
        Some(facts) => var_entry_views(current, facts),
        None => Vec::new(),
    };
    ProjectPanelRowView {
        category_key,
        category_label,
        label: change.label.clone(),
        detail,
        note: note_text,
        affected_text,
        affected_overflow,
        tier: if is_dispatch {
            "UNKNOWN"
        } else {
            ""
        },
        banner: is_dispatch,
        hook_slot: hook_diff,
        var_entries,
    }
}

/// A line of a raw diff.
#[derive(Debug, PartialEq, Eq)]
pub struct ProjectPanelLineView {
    pub kind: &'static str,
    pub text: String,
}

/// The panel.
#[derive(Debug, PartialEq, Eq)]
pub struct ProjectPanelView {
    pub rows: Vec<ProjectPanelRowView>,
    /// Whether the changes were told apart and there is none.
    pub is_empty_change: bool,
    pub fallback_copy: String,
    pub fallback_lines: Vec<ProjectPanelLineView>,
}

/// The name of a kind of diff line.
pub open spec fn line_kind(k: DiffLineKind) -> Seq<char> {
    match k {
        DiffLineKind::Context => "context"@,
        DiffLineKind::Removed => "removed"@,
        DiffLineKind::Added => "added"@,
    }
}

/// `l` shows the diff line `d`.
pub open spec fn shows_line(l: ProjectPanelLineView, d: DiffLine) -> bool {
    l.kind@ == line_kind(d.kind) && l.text == d.text
}

/// `v` shows `panel`.
pub open spec fn shows_panel(
    v: ProjectPanelView,
    m: Manifest,
    panel: ProjectChangePanel,
    attributions: Map<Seq<char>, Vec<ConfigAttribution>>,
) -> bool {
    match panel {
        ProjectChangePanel::Categorized { changes } => {
            &&& v.rows@.len() == changes@.len()
            &&& forall|i: int|
                0 <= i < changes@.len() ==> shows_row(
                    #[trigger] v.rows@[i],
                    m,
                    changes@[i],
                    change_ids(changes@[i], attributions),
                )
            &&& v.is_empty_change == (changes@.len() == 0)
            &&& v.fallback_copy@ == Seq::<char>::empty()
            &&& v.fallback_lines@.len() == 0
        },
        ProjectChangePanel::Fallback { reason, raw } => {
            &&& v.rows@.len() == 0
            &&& !v.is_empty_change
            &&& v.fallback_copy@ == fallback_text(reason)
            &&& v.fallback_lines@.len() == raw@.len()
            &&& forall|i: int|
                0 <= i < raw@.len() ==> shows_line(#[trigger] v.fallback_lines@[i], raw@[i])
        },
    }
}

/// The panel: one row per change, or the raw diff where the changes could not
/// be told apart.
pub fn project_panel_view(
    current: &Manifest,
    panel: &ProjectChangePanel,
    attributions: &StrMap<Vec<ConfigAttribution>>,
) -> (r: ProjectPanelView)
    ensures
        shows_panel(r, *current, *panel, attributions@),
{
    match panel {
        ProjectChangePanel::Categorized { changes } => {
            let affected: Vec<AffectedLeaf> = affected_models_by_leaf(attributions);
            let mut rows: Vec<ProjectPanelRowView> = Vec::new();
            let mut i: usize = 0;
            while i < changes.len()
                invariant
                    i <= changes@.len(),
                    leaves_distinct(affected@),
                    forall|path: Seq<char>, key: Seq<char>| #[trigger]
                        leaf_ids(affected@, path, key) == affected_by(attributions@, path, key),
                    rows@.len() == i,
                    forall|j: int|
                        0 <= j < i ==> shows_row(
                            #[trigger] rows@[j],
                            *current,
                            changes@[j],
                            change_ids(changes@[j], attributions@),
                        ),
                decreases changes@.len() - i,
            {
                rows.push(project_panel_row(current, &changes[i], &affected));
                i += 1;
            }
            ProjectPanelView {
                is_empty_change: rows.len() == 0,
                rows,
                fallback_copy: String::new(),
                fallback_lines: Vec::new(),
            }
        },
        ProjectChangePanel::Fallback { reason, raw } => {
            let mut lines: Vec<ProjectPanelLineView> = Vec::new();
            let mut i: usize = 0;
            while i < raw.len()
                invariant
                    i <= raw@.len(),
                    lines@.len() == i,
                    forall|j: int| 0 <= j < i ==> shows_line(#[trigger] lines@[j], raw@[j]),
                decreases raw@.len() - i,
            {
                let kind: &'static str = match raw[i].kind {
                    DiffLineKind::Context => "context",
                    DiffLineKind::Removed => "removed",
                    DiffLineKind::Added => "added",
                };
                lines.push(ProjectPanelLineView { kind, text: raw[i].text.clone() });
                i += 1;
            }
            ProjectPanelView {
                rows: Vec::new(),
                is_empty_change: false,
                fallback_copy: project_fallback_copy(*reason).to_owned(),
                fallback_lines: lines,
            }
        },
    }
}

/// Law: a row claims affected models only for a change of the config of
/// models, and a row on the macro search order is the only banner.
pub proof fn law_row_claims(
    row: ProjectPanelRowView,
    m: Manifest,
    change: ProjectChange,
    ids: Set<Seq<char>>,
)
    requires
        shows_row(row, m, change, ids),
    ensures
        row.affected_text@.len() > 0 ==> change.tree is Some && change.tree->0.section@
            == "models"@,
        row.banner <==> change.category == ProjectChangeCategory::Dispatch,
        row.hook_slot || change.vars is Some ==> row.detail@.len() == 0,
{
}

/// Law: a sentence lists the names of the models or they come apart, never
/// both.
pub proof fn law_names_once(m: Manifest, ids: Seq<Seq<char>>)
    ensures
        ids.len() <= CONFIG_AFFECTED_CAP ==> affected_text(m, ids).1.len() == 0,
        ids.len() > CONFIG_AFFECTED_CAP ==> affected_text(m, ids).1.len() == ids.len(),
        capped(ids).0.len() == 0 || capped(ids).1.len() == 0,
{
    crate::order::law_sorted_texts(display_names(m, ids));
}

// ---------------------------------------------------------------------
// Laws on what the panel says
// ---------------------------------------------------------------------

/// Law: the key, the label and the note of every category.
pub proof fn law_category_texts()
    ensures
        category_texts(ProjectChangeCategory::Vars) == (
            "vars"@,
            "vars"@,
            "blast radius not attributed"@,
        ),
        category_texts(ProjectChangeCategory::ConfigTree) == ("config_tree"@, "config tree"@, ""@),
        category_texts(ProjectChangeCategory::Dispatch) == (
            "dispatch"@,
            "dispatch"@,
            "macro search order changed — a project-wide effect. Any model, test, snapshot, or hook may resolve dispatched macros differently after this edit; which ones cannot be attributed statically, because macro resolution happens per call at compile time. Checked: the old and new dispatch values in dbt_project.yml, shown in this row — no call-site resolution was attempted (zero-compute)."@,
        ),
        category_texts(ProjectChangeCategory::Hooks) == ("hooks"@, "hooks"@, ""@),
        category_texts(ProjectChangeCategory::Paths) == ("paths"@, "paths"@, ""@),
        category_texts(ProjectChangeCategory::Identity) == ("identity"@, "identity"@, ""@),
        category_texts(ProjectChangeCategory::Other) == ("other"@, "other"@, ""@),
{
}

/// Law: the note on hooks names the operations where the manifest has them,
/// as they are or otherwise, and says where it has none.
pub proof fn law_hook_note(f: HookChangeFacts)
    ensures
        f.manifest == HookManifestPresence::Matched && f.operation_ids@.len() > 0 ==> hook_note(f)
            == "runs in the manifest as "@ + joined(texts(f.operation_ids@), ", "@),
        f.manifest == HookManifestPresence::Matched && f.operation_ids@.len() == 0 ==> hook_note(f)
            == "no operation nodes remain in the manifest — consistent with this removal"@,
        f.manifest == HookManifestPresence::Absent ==> hook_note(f)
            == "no matching operation.* nodes in the manifest (checked the manifest nodes map for this project's hook names) — the manifest may predate this edit; the diff is read from dbt_project.yml itself"@,
        f.manifest == HookManifestPresence::Diverged ==> hook_note(f)
            == "the manifest's operation nodes ("@ + joined(texts(f.operation_ids@), ", "@)
            + ") do not match the working-tree hooks — manifest and working tree may be out of sync; the diff is read from dbt_project.yml itself"@,
{
}

/// Law: what the panel says where the changes could not be told apart.
pub proof fn law_fallback_text()
    ensures
        fallback_text(ProjectFallbackReason::NewParseFailed)
            == "dbt_project.yml could not be parsed, so this change could not be categorized — showing the raw diff."@,
        fallback_text(ProjectFallbackReason::OldParseFailed)
            == "The previous version of dbt_project.yml could not be parsed, so this change could not be categorized — showing the raw diff."@,
        fallback_text(ProjectFallbackReason::OldNotReconstructable)
            == "Could not reconstruct the previous version of dbt_project.yml from the diff, so this change could not be categorized — showing the raw diff."@,
        fallback_text(ProjectFallbackReason::FileUnreadable)
            == "dbt_project.yml changed in this diff, but the file could not be read from the project root — nothing to categorize. Showing the raw diff."@,
{
}

/// Law: a place without segments is called like its section, and one segment
/// more puts a dot and the segment behind.
pub proof fn law_dotted(a: ConfigLeafPath, b: ConfigLeafPath, last: Seq<char>)
    requires
        b.section@ == a.section@,
        texts(b.segments@) == texts(a.segments@).push(last),
    ensures
        a.segments@.len() == 0 ==> a.dotted_text() == a.section@,
        b.dotted_text() == a.dotted_text() + "."@ + last,
{
    let parts = seq![a.section@] + texts(a.segments@);
    if a.segments@.len() == 0 {
        assert(parts == seq![a.section@]);
        crate::text::law_joined(parts, a.section@, "."@);
    }
    assert(seq![b.section@] + texts(b.segments@) == parts.push(last));
    crate::text::law_joined(parts, last, "."@);
}

/// Law: a setting reaches exactly the models with an entry for its key at its
/// path.
pub proof fn law_affected_by(
    attributions: Map<Seq<char>, Vec<ConfigAttribution>>,
    path: Seq<char>,
    key: Seq<char>,
    id: Seq<char>,
)
    ensures
        affected_by(attributions, path, key).contains(id) <==> attributions.dom().contains(id)
            && exists|k: int|
            0 <= k < attributions[id]@.len() && (#[trigger] attributions[id]@[k]).path@ == path
                && attributions[id]@[k].key@ == key,
{
}

/// Law: where no setting occurs twice, the models of a setting are those of
/// its entry, and none where it has no entry.
pub proof fn law_leaf_ids(leaves: Seq<AffectedLeaf>, path: Seq<char>, key: Seq<char>)
    requires
        forall|i: int, j: int|
            0 <= i < leaves.len() && 0 <= j < leaves.len() && i != j ==> (
            #[trigger] leaves[i]).path@ != (#[trigger] leaves[j]).path@ || leaves[i].key@
                != leaves[j].key@,
    ensures
        leaves_distinct(leaves),
        forall|k: int|
            0 <= k < leaves.len() && (#[trigger] leaves[k]).path@ == path && leaves[k].key@ == key
                ==> leaf_ids(leaves, path, key) == leaves[k].ids@,
        (forall|k: int|
            0 <= k < leaves.len() ==> (#[trigger] leaves[k]).path@ != path || leaves[k].key@
                != key) ==> leaf_ids(leaves, path, key) == Set::<Seq<char>>::empty(),
{
    assert forall|k: int|
        0 <= k < leaves.len() && (#[trigger] leaves[k]).path@ == path && leaves[k].key@
            == key implies leaf_ids(leaves, path, key) == leaves[k].ids@ by {
        lemma_leaf_ids(leaves, k);
    }
}

/// Law: what is said of the models that a setting reaches. Up to ten stand in
/// the sentence by their names, in order; more stand apart.
pub proof fn law_affected_text(m: Manifest, ids: Seq<Seq<char>>)
    ensures
        ids.len() == 0 ==> affected_text(m, ids) == (
            "affects 0 models in this manifest"@,
            Seq::<Seq<char>>::empty(),
        ),
        ids.len() == 1 ==> affected_text(m, ids) == (
            "affects "@ + decimal(1) + " model"@ + " — widened into report scope: "@ + joined(
                sorted_texts(display_names(m, ids)),
                ", "@,
            ),
            Seq::<Seq<char>>::empty(),
        ),
        2 <= ids.len() <= 10 ==> affected_text(m, ids) == (
            "affects "@ + decimal(ids.len()) + " models"@ + " — widened into report scope: "@
                + joined(sorted_texts(display_names(m, ids)), ", "@),
            Seq::<Seq<char>>::empty(),
        ),
        ids.len() > 10 ==> affected_text(m, ids) == (
            "affects "@ + decimal(ids.len()) + " models"@
                + " — widened into report scope, listed below"@,
            sorted_texts(display_names(m, ids)),
        ),
{
}

/// Law: a line on models that read a var is there exactly where there are
/// names; it counts the models as a lower bound, in the singular or the
/// plural, and lists up to ten names in the text and more apart.
pub proof fn law_tier_line(
    key: Seq<char>,
    label: Seq<char>,
    one: Seq<char>,
    many: Seq<char>,
    models: nat,
    names: Seq<Seq<char>>,
)
    ensures
        ({
            let l = tier_line(key, label, one, many, models, names);
            let claim = if models == 1 {
                " model "@ + one
            } else {
                " models "@ + many
            };
            let count = "at least "@ + decimal(models) + claim;
            &&& l is None <==> names.len() == 0
            &&& l is Some ==> l->0.tier_key == key && l->0.tier_label == label
            &&& 1 <= names.len() <= 10 ==> l->0.text == count + ": "@ + joined(names, ", "@)
                && l->0.overflow.len() == 0
            &&& names.len() > 10 ==> l->0.text == count
                + " \u{2014} listed, not individually rendered"@ && l->0.overflow == names
        }),
{
}

/// Law: the texts of a line are those of its fields, and a list of lines has
/// the texts of each.
pub proof fn law_line_texts(v: Seq<VarTierLineView>, i: int)
    requires
        0 <= i < v.len(),
    ensures
        line_texts(v).len() == v.len(),
        line_texts(v)[i].tier_key == v[i].tier_key@,
        line_texts(v)[i].tier_label == v[i].tier_label@,
        line_texts(v)[i].text == v[i].text@,
        line_texts(v)[i].overflow == texts(v[i].overflow@),
        opt_line(None) is None,
        opt_line(Some(v[i])) == Some(line_texts(v)[i]),
{
}

/// Law: the models that read a var through macros are listed hit by hit, each
/// with its macro behind, and then sorted: no hit is lost and none is added.
pub proof fn law_macro_names(m: Manifest, hits: Seq<MacroVarHit>)
    ensures
        hit_models(hits).len() == hits.len(),
        forall|i: int| 0 <= i < hits.len() ==> #[trigger] hit_models(hits)[i] == hits[i].model@,
        macro_names(m, hits).len() == hits.len(),
        exists|names: Seq<Seq<char>>|
            names.len() == hits.len() && (forall|i: int|
                0 <= i < hits.len() ==> #[trigger] names[i] == display_name(
                    m,
                    hit_models(hits),
                    i,
                ) + " (via "@ + leaf(hits[i].via@) + ")"@) && #[trigger] names.to_multiset()
                == macro_names(m, hits).to_multiset(),
        forall|i: int, j: int|
            0 <= i < j < hits.len() ==> !crate::order::text_lt(
                #[trigger] macro_names(m, hits)[j],
                #[trigger] macro_names(m, hits)[i],
            ),
{
    let names = Seq::new(hits.len(), |i: int| hit_name(m, hits, i));
    crate::order::law_sorted_texts(names);
    assert(names.to_multiset() == macro_names(m, hits).to_multiset());
}

/// Law: a var has a line for each way in which models read it, in the order
/// SQL, config, macros, and none for a way that no model reads it in.
pub proof fn law_tier_lines(m: Manifest, e: VarAttribution)
    ensures
        ({
            let by_sql = listed(m, texts(e.direct@));
            let by_config = listed(m, texts(e.config@));
            let by_macro = macro_names(m, e.via_macros@);
            let direct = tier_line(
                "direct"@,
                "DIRECT"@,
                "reads this var directly in SQL"@,
                "read this var directly in SQL"@,
                by_sql.len(),
                by_sql,
            );
            let config = tier_line(
                "config"@,
                "CONFIG"@,
                "carries config driven by this var"@,
                "carry config driven by this var"@,
                by_config.len(),
                by_config,
            );
            let macros = tier_line(
                "macro"@,
                "MACRO"@,
                "reads this var through its macro closure"@,
                "read this var through their macro closure"@,
                in_order(hit_models(e.via_macros@).to_set()).len(),
                by_macro,
            );
            let first = if by_sql.len() > 0 {
                seq![direct->0]
            } else {
                Seq::empty()
            };
            let second = if by_config.len() > 0 {
                seq![config->0]
            } else {
                Seq::empty()
            };
            let third = if by_macro.len() > 0 {
                seq![macros->0]
            } else {
                Seq::empty()
            };
            tier_lines(m, e) =~= first + second + third
        }),
{
}

/// Law: the notes on packages, unit tests and models with computed names, in
/// words; ids of unit tests are shown by their last parts.
pub proof fn law_notes(m: Manifest, list: Seq<Seq<char>>)
    ensures
        leaves_of(list).len() == list.len(),
        forall|i: int| 0 <= i < list.len() ==> #[trigger] leaves_of(list)[i] == leaf(list[i]),
        masked_note(list) == "masked for "@ + joined(list, ", "@)
            + ": a package-scoped value pins this var there, so this edit does not reach those models (package vars outrank global vars)"@,
        list.len() == 1 ==> insulated_note(list) == decimal(1)
            + " unit test pins this var in overrides.vars and is"@
            + " insulated from this edit (the override always wins): "@ + joined(
            leaves_of(list),
            ", "@,
        ),
        list.len() != 1 ==> insulated_note(list) == decimal(list.len())
            + " unit tests pin this var in overrides.vars and are"@
            + " insulated from this edit (the override always wins): "@ + joined(
            leaves_of(list),
            ", "@,
        ),
        ({
            let claim = if list.len() == 1 {
                " model calls"@
            } else {
                " models call"@
            };
            let sentence = decimal(list.len()) + claim
                + " var() with a computed name and cannot be ruled out"@;
            &&& listed(m, list).len() <= 10 ==> dynamic_note(m, list) == sentence + ": "@ + joined(
                listed(m, list),
                ", "@,
            )
            &&& listed(m, list).len() > 10 ==> dynamic_note(m, list) == sentence
        }),
{
}

/// Law: a change of a var has a note for packages and unit tests with a value
/// of their own and for models with computed names, each where there are any,
/// and one where no model reads the var; in this order and no others.
pub proof fn law_entry_notes(m: Manifest, e: VarAttribution)
    ensures
        ({
            let masked = if e.masked_packages@.len() > 0 {
                seq![masked_note(texts(e.masked_packages@))]
            } else {
                Seq::empty()
            };
            let insulated = if e.insulated_tests@.len() > 0 {
                seq![insulated_note(texts(e.insulated_tests@))]
            } else {
                Seq::empty()
            };
            let dynamic = if e.dynamic@.len() > 0 {
                seq![dynamic_note(m, texts(e.dynamic@))]
            } else {
                Seq::empty()
            };
            let unread = if e.direct@.len() == 0 && e.config@.len() == 0 && e.via_macros@.len()
                == 0 {
                seq!["no referencing models found by the static scan"@]
            } else {
                Seq::empty()
            };
            entry_notes(m, e) =~= masked + insulated + dynamic + unread
        }),
{
}

/// Law: a change of vars is shown var by var, in order: its name, the package
/// that it is scoped to, its old and its new value, its lines and its notes.
pub proof fn law_vars_shown(
    out: Seq<ProjectVarEntryView>,
    m: Manifest,
    entries: Seq<VarAttribution>,
    i: int,
)
    requires
        shows_vars(out, m, entries),
    ensures
        out.len() == entries.len(),
        0 <= i < entries.len() ==> {
            &&& out[i].name == entries[i].name
            &&& entries[i].package is None ==> out[i].scope@.len() == 0
            &&& entries[i].package is Some ==> out[i].scope@ == "package-scoped: "@
                + entries[i].package->0@
            &&& out[i].detail@ == sides(side_text(entries[i].old), side_text(entries[i].new))
            &&& line_texts(out[i].tier_lines@) == tier_lines(m, entries[i])
            &&& texts(out[i].notes@) == entry_notes(m, entries[i])
        },
{
}

/// Law: the note on a change of vars says how many models and macros were
/// looked through, and how many Python models could not be, where there are
/// any.
pub proof fn law_vars_note(f: VarScanFootprint)
    ensures
        ({
            let models = decimal(f.models_scanned as nat) + (if f.models_scanned == 1 {
                " model's"@
            } else {
                " models'"@
            });
            let macros = decimal(f.macros_scanned as nat) + (if f.macros_scanned == 1 {
                " macro body"@
            } else {
                " macro bodies"@
            });
            let python = if f.python_models == 0 {
                Seq::<char>::empty()
            } else {
                " ("@ + decimal(f.python_models as nat) + " Python models could not be scanned)"@
            };
            vars_note(f)
                =~= "Blast radius is not fully attributable statically \u{2014} the listed counts are \u{201c}at least\u{201d}, never exact. Not attributable: dynamic var() names, var-to-var value indirection, CLI --vars overrides (CLI values outrank everything shown here), Python models. Checked: "@
                + models + " SQL and configs plus "@ + macros + python
                + ". An inline var() default never overrides a project value. Models disabled by this edit drop out of the manifest and cannot be listed. Referencing models are contextualized here, never widened into report scope."@
        }),
{
}

/// Law: the setting of a change reaches the models with an entry for it; a
/// change that is about no setting reaches none.
pub proof fn law_change_ids(
    change: ProjectChange,
    attributions: Map<Seq<char>, Vec<ConfigAttribution>>,
    leaves: Seq<AffectedLeaf>,
)
    ensures
        change.tree matches Some(t) ==> change_ids(change, attributions) == affected_by(
            attributions,
            t.dotted_text(),
            t.key@,
        ) && change_leaf_ids(change, leaves) == leaf_ids(leaves, t.dotted_text(), t.key@),
        change.tree is None ==> change_ids(change, attributions) == Set::<Seq<char>>::empty()
            && change_leaf_ids(change, leaves) == Set::<Seq<char>>::empty(),
{
}

/// Law: a row shows a change under its category and its label. A diff of the
/// SQL of hooks has a slot of its own; it and vars stand in place of the old
/// and the new value. The note is on the hooks, else on the vars, else on the
/// category. Only a change of the config of models says which it affects, and
/// only one of the macro search order is a banner, with nothing known of what
/// it affects.
pub proof fn law_row_shown(
    row: ProjectPanelRowView,
    m: Manifest,
    change: ProjectChange,
    ids: Set<Seq<char>>,
)
    requires
        shows_row(row, m, change, ids),
    ensures
        row.category_key@ == category_texts(change.category).0,
        row.category_label@ == category_texts(change.category).1,
        row.label == change.label,
        row.hook_slot <==> change.hook is Some && change.hook->0.sql_diff is Some,
        row.hook_slot || change.vars is Some ==> row.detail@.len() == 0,
        !row.hook_slot && change.vars is None ==> row.detail@ == sides(
            side_text(change.old),
            side_text(change.new),
        ),
        change.hook matches Some(h) ==> row.note@ == hook_note(h),
        change.hook is None && change.vars is Some ==> row.note@ == vars_note(
            change.vars->0.footprint,
        ),
        change.hook is None && change.vars is None ==> row.note@ == category_texts(
            change.category,
        ).2,
        change.tree is Some && change.tree->0.section@ == "models"@ ==> row.affected_text@
            == affected_text(m, in_order(ids)).0 && texts(row.affected_overflow@) == affected_text(
            m,
            in_order(ids),
        ).1,
        change.tree is None || change.tree->0.section@ != "models"@ ==> row.affected_text@.len()
            == 0 && row.affected_overflow@.len() == 0,
        row.banner <==> change.category == ProjectChangeCategory::Dispatch,
        row.tier@ == if row.banner {
            "UNKNOWN"@
        } else {
            ""@
        },
        change.vars matches Some(v) ==> shows_vars(row.var_entries@, m, v.entries@),
        change.vars is None ==> row.var_entries@.len() == 0,
{
    assert(texts(row.affected_overflow@).len() == row.affected_overflow@.len());
}

/// Law: the panel shows every change by a row, in order, and no raw diff; or,
/// where the changes could not be told apart, the reason and every line of the
/// raw diff, in order, and no row. It is empty of changes only where they were
/// told apart.
pub proof fn law_panel_shown(
    v: ProjectPanelView,
    m: Manifest,
    panel: ProjectChangePanel,
    attributions: Map<Seq<char>, Vec<ConfigAttribution>>,
    i: int,
)
    requires
        shows_panel(v, m, panel, attributions),
    ensures
        panel matches ProjectChangePanel::Categorized { changes } ==> v.rows@.len()
            == changes@.len() && (0 <= i < changes@.len() ==> shows_row(
            v.rows@[i],
            m,
            changes@[i],
            change_ids(changes@[i], attributions),
        )) && (v.is_empty_change <==> changes@.len() == 0) && v.fallback_copy@.len() == 0
            && v.fallback_lines@.len() == 0,
        panel matches ProjectChangePanel::Fallback { reason, raw } ==> v.rows@.len() == 0
            && !v.is_empty_change && v.fallback_copy@ == fallback_text(reason)
            && v.fallback_lines@.len() == raw@.len() && (0 <= i < raw@.len() ==> {
            let l = v.fallback_lines@[i];
            &&& l.text == raw@[i].text
            &&& raw@[i].kind == DiffLineKind::Context ==> l.kind@ == "context"@
            &&& raw@[i].kind == DiffLineKind::Removed ==> l.kind@ == "removed"@
            &&& raw@[i].kind == DiffLineKind::Added ==> l.kind@ == "added"@
        }),
{
}

} // verus!
