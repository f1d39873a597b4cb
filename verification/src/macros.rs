//! The lens on changed macros: the models that each one reaches, where they
//! call it, and in which directories they lie.
use vstd::prelude::*;
use vstd::string::*;
use vstd::utf8::*;
use crate::domain::{
    bare_name_of, bare_of, leaf, leaf_segment, BlockDiff, DiffLine, DiffLineKind, MacroIdentity,
    Manifest, Node,
};
use crate::order::{
    codes, items, law_key_order, law_list_key_order, law_sorted, lemma_lex_irreflexive,
    lemma_sorted_map, lemma_text_total, lex_lt, list_lt, push_text_field, push_texts_field, ranks,
    renamed, sort_ranked, sorted, text_field, text_lt, texts_field, Ranked,
};
use crate::scan::{
    blank_byte, call_paren_follows, left_edge, occurs, occurs_at, paren_follows, past_blanks,
    token_left_boundary_ok, word_byte,
};
use crate::span::lemma_text_bytes;
use crate::table::{StrMap, StrSet};
use crate::text::{
    lemma_strip_run, lemma_strip_run_behind, opt_text, same_text, split, split_on, strip_back,
    strip_end, strip_front, strip_start, texts, trim, trimmed, without_suffix, Class,
};

verus! {

/// Where the scope of a report comes from.
#[derive(Debug, Clone, Copy, PartialEq, Eq, Structural)]
pub enum ScopeSource {
    /// A comparison with a baseline.
    Baseline,
    /// The diff of a pull request.
    PrDiff,
}

/// How many call sites of a model are shown.
pub const MACRO_CALL_SITE_CAP: usize = 3;

// ---------------------------------------------------------------------
// Call sites
// ---------------------------------------------------------------------

/// At `at`, `b` calls the macro `name`: the name stands there, no identifier
/// runs into it, and an opening parenthesis follows.
pub open spec fn call_at(b: Seq<u8>, name: Seq<u8>, at: int) -> bool {
    occurs(b, name, at) && left_edge(b, at) && paren_follows(b, at + name.len())
}

/// `line` calls the macro `name`, which is not empty.
pub open spec fn invokes(line: Seq<char>, name: Seq<char>) -> bool {
    name.len() > 0 && exists|at: int| #[trigger]
        call_at(encode_utf8(line), encode_utf8(name), at)
}

/// Whether `line` calls the macro `macro_name`. White space may stand between
/// the name and the parenthesis. An empty name is called nowhere.
pub fn line_invokes_macro(line: &str, macro_name: &str) -> (r: bool)
    ensures
        r == invokes(line@, macro_name@),
{
    if macro_name.is_empty() {
        return false;
    }
    let bytes: &[u8] = line.as_bytes();
    let name: &[u8] = macro_name.as_bytes();
    proof {
        lemma_text_bytes(macro_name);
        assert(name@.len() > 0) by {
            if name@.len() == 0 {
                assert(decode_utf8(name@) == Seq::<char>::empty());
            }
        }
    }
    let mut at: usize = 0;
    while at < bytes.len()
        invariant
            at <= bytes@.len(),
            name@.len() > 0,
            macro_name@.len() > 0,
            bytes@ == encode_utf8(line@),
            name@ == encode_utf8(macro_name@),
            forall|k: int| 0 <= k < at ==> !call_at(bytes@, name@, k),
        decreases bytes@.len() - at,
    {
        if occurs_at(bytes, name, at) && token_left_boundary_ok(bytes, at) && call_paren_follows(
            bytes,
            at + name.len(),
        ) {
            assert(call_at(bytes@, name@, at as int));
            return true;
        }
        at += 1;
    }
    assert forall|k: int| !call_at(bytes@, name@, k) by {
        if k >= at {
            assert(!occurs(bytes@, name@, k));
        }
    }
    false
}

/// `after` is followed by blanks up to `j`, and by an opening parenthesis
/// there.
pub open spec fn opens_at(b: Seq<u8>, after: int, j: int) -> bool {
    &&& after <= j < b.len()
    &&& forall|k: int| after <= k < j ==> blank_byte(#[trigger] b[k])
    &&& b[j] == 0x28
}

proof fn lemma_opens(b: Seq<u8>, after: int, j: int)
    requires
        0 <= after,
        opens_at(b, after, j),
    ensures
        past_blanks(b, after) == j,
    decreases j - after,
{
    if after < j {
        assert(blank_byte(b[after]));
        lemma_opens(b, after + 1, j);
    }
}

proof fn lemma_past_blanks(b: Seq<u8>, after: int)
    requires
        0 <= after,
    ensures
        after <= past_blanks(b, after),
        forall|k: int| after <= k < past_blanks(b, after) ==> blank_byte(#[trigger] b[k]),
    decreases b.len() - after,
{
    if after < b.len() && blank_byte(b[after]) {
        lemma_past_blanks(b, after + 1);
        assert forall|k: int| after <= k < past_blanks(b, after) implies blank_byte(
            #[trigger] b[k],
        ) by {
            if k > after {
                assert(after + 1 <= k < past_blanks(b, after + 1));
            }
        }
    }
}

/// Law: a line calls a macro exactly where the name stands somewhere in it
/// with no identifier byte directly before and an opening parenthesis behind,
/// nothing but blanks between.
pub proof fn law_invocation_is_call(line: Seq<char>, name: Seq<char>)
    requires
        name.len() > 0,
    ensures
        ({
            let b = encode_utf8(line);
            let n = encode_utf8(name);
            invokes(line, name) <==> exists|at: int, j: int| #[trigger]
                occurs(b, n, at) && !(at > 0 && word_byte(b[at - 1])) && #[trigger] opens_at(
                    b,
                    at + n.len(),
                    j,
                )
        }),
{
    let b = encode_utf8(line);
    let n = encode_utf8(name);
    if invokes(line, name) {
        let at = choose|at: int| #[trigger] call_at(b, n, at);
        lemma_past_blanks(b, at + n.len());
        let j = past_blanks(b, at + n.len());
        assert(occurs(b, n, at) && opens_at(b, at + n.len(), j));
    }
    if exists|at: int, j: int| #[trigger]
        occurs(b, n, at) && !(at > 0 && word_byte(b[at - 1])) && #[trigger] opens_at(
            b,
            at + n.len(),
            j,
        ) {
        let (at, j) = choose|at: int, j: int| #[trigger]
            occurs(b, n, at) && !(at > 0 && word_byte(b[at - 1])) && #[trigger] opens_at(
                b,
                at + n.len(),
                j,
            );
        lemma_opens(b, at + n.len(), j);
        assert(call_at(b, n, at));
    }
}

/// A line of a model that calls a macro: its number, counted from one, and
/// its text without white space at the ends.
#[derive(Debug, PartialEq, Eq)]
pub struct CallSiteView {
    pub line: usize,
    pub text: String,
}

/// The number and the text of a call site.
pub open spec fn site_text(s: CallSiteView) -> (int, Seq<char>) {
    (s.line as int, s.text@)
}

/// The numbers and texts of a list of call sites.
pub open spec fn site_texts(v: Seq<CallSiteView>) -> Seq<(int, Seq<char>)> {
    v.map_values(|s: CallSiteView| site_text(s))
}

/// The lines among `lines` that call `name`, with their numbers.
pub open spec fn sites_in(lines: Seq<Seq<char>>, name: Seq<char>) -> Seq<(int, Seq<char>)>
    decreases lines.len(),
{
    if lines.len() == 0 {
        Seq::empty()
    } else {
        let head = sites_in(lines.drop_last(), name);
        if invokes(lines.last(), name) {
            head.push((lines.len() as int, trimmed(lines.last())))
        } else {
            head
        }
    }
}

/// The call sites of `name` in a model's source.
pub open spec fn call_sites(raw: Seq<char>, name: Seq<char>) -> Seq<(int, Seq<char>)> {
    if raw.len() == 0 || name.len() == 0 {
        Seq::empty()
    } else {
        sites_in(split_on(raw, '\n'), name)
    }
}

/// The lines of `raw` that call the macro `macro_name`.
pub fn macro_call_sites(raw: &str, macro_name: &str) -> (r: Vec<CallSiteView>)
    ensures
        site_texts(r@) == call_sites(raw@, macro_name@),
        r@.len() == call_sites(raw@, macro_name@).len(),
{
    let mut out: Vec<CallSiteView> = Vec::new();
    assert(site_texts(out@) == Seq::<(int, Seq<char>)>::empty());
    if raw.is_empty() || macro_name.is_empty() {
        return out;
    }
    let lines: Vec<String> = split(raw, '\n');
    let ghost all = texts(lines@);
    let mut i: usize = 0;
    assert(all.take(0) == Seq::<Seq<char>>::empty());
    while i < lines.len()
        invariant
            i <= lines@.len(),
            all == texts(lines@),
            site_texts(out@) == sites_in(all.take(i as int), macro_name@),
        decreases lines@.len() - i,
    {
        proof {
            assert(all.take(i as int + 1).drop_last() == all.take(i as int));
            assert(all.take(i as int + 1).last() == lines@[i as int]@);
        }
        let line: &str = lines[i].as_str();
        if line_invokes_macro(line, macro_name) {
            let ghost before = out@;
            let site: CallSiteView = CallSiteView { line: i + 1, text: trim(line).to_owned() };
            let ghost t = site_text(site);
            out.push(site);
            assert(site_texts(out@) == site_texts(before).push(t));
        }
        i += 1;
    }
    assert(all.take(i as int) == all);
    assert(site_texts(out@).len() == out@.len());
    out
}

/// `lines` are `body` as lines of context: a line feed at its very end ends
/// the last line.
pub open spec fn is_context(lines: Seq<DiffLine>, body: Seq<char>) -> bool {
    let parts = body_lines(body);
    &&& lines.len() == parts.len()
    &&& forall|i: int|
        0 <= i < lines.len() ==> (#[trigger] lines[i]).kind == DiffLineKind::Context
            && lines[i].text@ == parts[i] && lines[i].emphasis is None
}

/// The lines of `body`; none where it is empty.
pub open spec fn body_lines(body: Seq<char>) -> Seq<Seq<char>> {
    if body.len() == 0 {
        Seq::empty()
    } else if body.last() == '\n' {
        split_on(body.drop_last(), '\n')
    } else {
        split_on(body, '\n')
    }
}

/// `body` as lines of context.
pub fn macro_body_context_lines(body: &str) -> (r: Vec<DiffLine>)
    ensures
        is_context(r@, body@),
{
    let mut out: Vec<DiffLine> = Vec::new();
    if body.is_empty() {
        return out;
    }
    proof {
        reveal_strlit("\n");
        let s = body@;
        if s.last() == '\n' {
            assert("\n"@ == s.subrange(s.len() - 1, s.len() as int));
            assert(s.take(s.len() - 1) == s.drop_last());
        }
        if "\n"@.is_suffix_of(s) {
            assert(s.subrange(s.len() - 1, s.len() as int)[0] == '\n');
        }
    }
    let normalized: &str = match without_suffix(body, "\n") {
        Some(t) => t,
        None => body,
    };
    let lines: Vec<String> = split(normalized, '\n');
    let ghost all = texts(lines@);
    for line in it: lines
        invariant
            it.seq() == lines@,
            all == texts(lines@),
            out@.len() == it.index(),
            forall|j: int|
                0 <= j < out@.len() ==> (#[trigger] out@[j]).kind == DiffLineKind::Context
                    && out@[j].text@ == all[j] && out@[j].emphasis is None,
    {
        assert(all[it.index() as int] == line@);
        out.push(DiffLine { kind: DiffLineKind::Context, text: line, emphasis: None });
    }
    out
}

// ---------------------------------------------------------------------
// Impacted models
// ---------------------------------------------------------------------

/// A model that a changed macro reaches.
#[derive(Debug, PartialEq, Eq)]
pub struct ImpactedModelView {
    pub model_id: String,
    pub name: String,
    pub path: String,
    pub sql_lines: Vec<DiffLine>,
    pub call_sites: Vec<CallSiteView>,
    pub call_site_total: usize,
    pub call_site_cap: usize,
    pub inline_body: bool,
}

/// The node `id`.
pub open spec fn node_at(m: Manifest, id: Seq<char>) -> Option<Node> {
    if m.nodes@.dom().contains(id) {
        Some(m.nodes@[id])
    } else {
        None
    }
}

/// The file of the node `id`; empty where it is not known.
pub open spec fn path_of(m: Manifest, id: Seq<char>) -> Seq<char> {
    match node_at(m, id) {
        Some(n) => match n.original_file_path {
            Some(p) => p@,
            None => Seq::empty(),
        },
        None => Seq::empty(),
    }
}

/// The source of the node `id`; empty where it is not known.
pub open spec fn raw_of(m: Manifest, id: Seq<char>) -> Seq<char> {
    match node_at(m, id) {
        Some(n) => match n.raw_code {
            Some(p) => p@,
            None => Seq::empty(),
        },
        None => Seq::empty(),
    }
}

/// `v` shows the model `id`, the one at position `rank` of those that the
/// macro reaches. Below the cap it shows the source of the model and its
/// first call sites; at or above it the model alone.
pub open spec fn shows_impacted(
    v: ImpactedModelView,
    m: Manifest,
    id: Seq<char>,
    macro_name: Seq<char>,
    rank: int,
    body_cap: usize,
) -> bool {
    let sites = call_sites(raw_of(m, id), macro_name);
    &&& v.model_id@ == id
    &&& v.name@ == bare_of(m, id)
    &&& v.path@ == path_of(m, id)
    &&& v.call_site_cap == MACRO_CALL_SITE_CAP
    &&& v.inline_body == (rank < body_cap)
    &&& if rank < body_cap {
        &&& is_context(v.sql_lines@, raw_of(m, id))
        &&& site_texts(v.call_sites@) == if sites.len() <= MACRO_CALL_SITE_CAP {
            sites
        } else {
            sites.take(MACRO_CALL_SITE_CAP as int)
        }
        &&& v.call_site_total == sites.len()
    } else {
        &&& v.sql_lines@.len() == 0
        &&& v.call_sites@.len() == 0
        &&& v.call_site_total == 0
    }
}

/// `out` shows the models `ids`, in order.
pub open spec fn shows_all_impacted(
    out: Seq<ImpactedModelView>,
    m: Manifest,
    ids: Seq<Seq<char>>,
    macro_name: Seq<char>,
    body_cap: usize,
) -> bool {
    &&& out.len() == ids.len()
    &&& forall|i: int|
        0 <= i < out.len() ==> shows_impacted(
            #[trigger] out[i],
            m,
            ids[i],
            macro_name,
            i,
            body_cap,
        )
}

fn opt_or_empty(o: Option<&String>) -> (r: String)
    ensures
        r@ == match o {
            Some(s) => s@,
            None => Seq::<char>::empty(),
        },
{
    match o {
        Some(s) => s.clone(),
        None => String::new(),
    }
}

fn node_path(node: Option<&Node>) -> (r: String)
    ensures
        r@ == match node {
            Some(n) => match n.original_file_path {
                Some(p) => p@,
                None => Seq::<char>::empty(),
            },
            None => Seq::<char>::empty(),
        },
{
    match node {
        Some(n) => opt_or_empty(n.original_file_path.as_ref()),
        None => String::new(),
    }
}

fn node_raw(node: Option<&Node>) -> (r: String)
    ensures
        r@ == match node {
            Some(n) => match n.raw_code {
                Some(p) => p@,
                None => Seq::<char>::empty(),
            },
            None => Seq::<char>::empty(),
        },
{
    match node {
        Some(n) => opt_or_empty(n.raw_code.as_ref()),
        None => String::new(),
    }
}

/// The models that a changed macro reaches, in the order of their ids. The
/// first `body_cap` carry their source and their first call sites.
pub fn impacted_model_views(
    current: &Manifest,
    radius: &StrSet,
    macro_name: &str,
    body_cap: usize,
) -> (r: Vec<ImpactedModelView>)
    ensures
        shows_all_impacted(r@, *current, radius.list(), macro_name@, body_cap),
{
    let mut out: Vec<ImpactedModelView> = Vec::new();
    let ghost ids = radius.list();
    let n: usize = radius.len();
    let mut rank: usize = 0;
    while rank < n
        invariant
            rank <= n == ids.len(),
            ids == radius.list(),
            out@.len() == rank,
            forall|i: int|
                0 <= i < rank ==> shows_impacted(
                    #[trigger] out@[i],
                    *current,
                    ids[i],
                    macro_name@,
                    i,
                    body_cap,
                ),
        decreases n - rank,
    {
        let id: &String = radius.at(rank);
        let node: Option<&Node> = current.nodes.get(id.as_str());
        let name: String = bare_name_of(current, id.as_str()).to_owned();
        let path: String = node_path(node);
        if rank >= body_cap {
            out.push(
                ImpactedModelView {
                    model_id: id.clone(),
                    name,
                    path,
                    sql_lines: Vec::new(),
                    call_sites: Vec::new(),
                    call_site_total: 0,
                    call_site_cap: MACRO_CALL_SITE_CAP,
                    inline_body: false,
                },
            );
        } else {
            let raw: String = node_raw(node);
            let mut sites: Vec<CallSiteView> = macro_call_sites(raw.as_str(), macro_name);
            let total: usize = sites.len();
            let ghost all = sites@;
            if total > MACRO_CALL_SITE_CAP {
                sites.truncate(MACRO_CALL_SITE_CAP);
                assert(site_texts(sites@) == site_texts(all).take(MACRO_CALL_SITE_CAP as int));
            }
            out.push(
                ImpactedModelView {
                    model_id: id.clone(),
                    name,
                    path,
                    sql_lines: macro_body_context_lines(raw.as_str()),
                    call_sites: sites,
                    call_site_total: total,
                    call_site_cap: MACRO_CALL_SITE_CAP,
                    inline_body: true,
                },
            );
        }
        rank += 1;
    }
    out
}

// ---------------------------------------------------------------------
// The directory tree
// ---------------------------------------------------------------------

/// A row of the tree: a directory or a model.
#[derive(Debug, PartialEq, Eq)]
pub struct MacroTreeRow {
    pub kind: &'static str,
    pub label: String,
    pub depth: usize,
    pub model_id: String,
}

/// The texts of a row.
pub struct TreeRowText {
    pub kind: Seq<char>,
    pub label: Seq<char>,
    pub depth: int,
    pub model_id: Seq<char>,
}

impl View for MacroTreeRow {
    type V = TreeRowText;

    open spec fn view(&self) -> TreeRowText {
        TreeRowText {
            kind: self.kind@,
            label: self.label@,
            depth: self.depth as int,
            model_id: self.model_id@,
        }
    }
}

/// The row of the directory `label` at `depth`.
pub open spec fn dir_row(label: Seq<char>, depth: int) -> TreeRowText {
    TreeRowText { kind: "dir"@, label, depth, model_id: Seq::empty() }
}

/// The row of the model `id` called `label` at `depth`.
pub open spec fn model_row(label: Seq<char>, depth: int, id: Seq<char>) -> TreeRowText {
    TreeRowText { kind: "model"@, label, depth, model_id: id }
}

/// The directories of a path and the name of the file: without a path, one
/// directory that says so.
pub open spec fn path_parts(path: Seq<char>) -> (Seq<Seq<char>>, Seq<char>) {
    let p = strip_back(Class::Is('/'), strip_front(Class::Is('/'), path));
    if p.len() == 0 {
        (seq!["(unknown path)"@], Seq::empty())
    } else {
        (split_on(p, '/').drop_last(), split_on(p, '/').last())
    }
}

/// The directories of a path, from the outermost inwards, and the name of the
/// file. Slashes at the ends of the path do not count.
pub fn split_dir_path(ofp: Option<&str>) -> (r: (Vec<String>, String))
    ensures
        (texts(r.0@), r.1@) == path_parts(
            match ofp {
                Some(p) => p@,
                None => Seq::<char>::empty(),
            },
        ),
{
    let empty: &str = "";
    proof {
        reveal_strlit("");
        assert(empty@ == Seq::<char>::empty());
    }
    let given: &str = match ofp {
        Some(p) => p,
        None => empty,
    };
    let path: &str = strip_end(Class::Is('/'), strip_start(Class::Is('/'), given));
    if path.is_empty() {
        let mut dirs: Vec<String> = Vec::new();
        dirs.push("(unknown path)".to_owned());
        assert(texts(dirs@) == seq!["(unknown path)"@]);
        return (dirs, String::new());
    }
    let mut segments: Vec<String> = split(path, '/');
    let ghost all = segments@;
    assert(texts(all).len() == all.len());
    let file: String = match segments.pop() {
        Some(f) => f,
        None => String::new(),
    };
    assert(texts(segments@) == texts(all).drop_last());
    assert(texts(all).last() == all.last()@);
    (segments, file)
}

/// A model in the tree: its directories, its name and its id.
pub struct TreeEntry {
    pub dirs: Seq<Seq<char>>,
    pub name: Seq<char>,
    pub id: Seq<char>,
}

/// The entry of the model `id`.
pub open spec fn entry_of(m: Manifest, id: Seq<char>) -> TreeEntry {
    TreeEntry { dirs: path_parts(path_of(m, id)).0, name: bare_of(m, id), id }
}

/// The order of the tree: by directories, then by name, then by id.
pub open spec fn entry_key_of(e: TreeEntry) -> Seq<u64> {
    texts_field(e.dirs) + text_field(e.name) + text_field(e.id)
}

/// The entries of the models `ids`, with their keys.
pub open spec fn keyed_entries(m: Manifest, ids: Seq<Seq<char>>) -> Seq<(Seq<u64>, TreeEntry)> {
    Seq::new(ids.len(), |i: int| (entry_key_of(entry_of(m, ids[i])), entry_of(m, ids[i])))
}

/// The entries of the models `ids`, in the order of the tree.
pub open spec fn tree_entries(m: Manifest, ids: Seq<Seq<char>>) -> Seq<TreeEntry> {
    items(sorted(keyed_entries(m, ids)))
}

/// The number of leading parts that two paths share.
pub open spec fn shared_parts(a: Seq<Seq<char>>, b: Seq<Seq<char>>) -> int
    decreases a.len(),
{
    if a.len() > 0 && b.len() > 0 && a[0] == b[0] {
        1 + shared_parts(a.drop_first(), b.drop_first())
    } else {
        0
    }
}

/// The rows of an entry that follows one in the directories `open`: the
/// directories that are not open yet, then the model.
pub open spec fn entry_rows(open: Seq<Seq<char>>, e: TreeEntry) -> Seq<TreeRowText> {
    let k = shared_parts(open, e.dirs);
    Seq::new((e.dirs.len() - k) as nat, |j: int| dir_row(e.dirs[k + j], k + j)).push(
        model_row(e.name, e.dirs.len() as int, e.id),
    )
}

/// The directories of the last of `entries`.
pub open spec fn open_after(entries: Seq<TreeEntry>) -> Seq<Seq<char>> {
    if entries.len() == 0 {
        Seq::empty()
    } else {
        entries.last().dirs
    }
}

/// The rows of the tree.
pub open spec fn tree_rows(entries: Seq<TreeEntry>) -> Seq<TreeRowText>
    decreases entries.len(),
{
    if entries.len() == 0 {
        Seq::empty()
    } else {
        tree_rows(entries.drop_last()) + entry_rows(
            open_after(entries.drop_last()),
            entries.last(),
        )
    }
}

/// The texts of a list of rows.
pub open spec fn row_texts(v: Seq<MacroTreeRow>) -> Seq<TreeRowText> {
    v.map_values(|r: MacroTreeRow| r@)
}

struct TreeItem {
    dirs: Vec<String>,
    name: String,
    id: String,
}

spec fn item_entry(t: TreeItem) -> TreeEntry {
    TreeEntry { dirs: texts(t.dirs@), name: t.name@, id: t.id@ }
}

proof fn lemma_shared_bounds(a: Seq<Seq<char>>, b: Seq<Seq<char>>)
    ensures
        0 <= shared_parts(a, b) <= a.len(),
        shared_parts(a, b) <= b.len(),
        forall|i: int| 0 <= i < shared_parts(a, b) ==> a[i] == b[i],
        shared_parts(a, b) < a.len() && shared_parts(a, b) < b.len() ==> a[shared_parts(a, b)]
            != b[shared_parts(a, b)],
    decreases a.len(),
{
    if a.len() > 0 && b.len() > 0 && a[0] == b[0] {
        let x = a.drop_first();
        let y = b.drop_first();
        lemma_shared_bounds(x, y);
        assert forall|i: int| 0 <= i < shared_parts(a, b) implies a[i] == b[i] by {
            if i > 0 {
                assert(x[i - 1] == a[i]);
                assert(y[i - 1] == b[i]);
            }
        }
        let k = shared_parts(x, y);
        if k < x.len() && k < y.len() {
            assert(x[k] == a[k + 1]);
            assert(y[k] == b[k + 1]);
        }
    }
}

fn shared_count(a: &Vec<String>, b: &Vec<String>) -> (r: usize)
    ensures
        r == shared_parts(texts(a@), texts(b@)),
        r <= a@.len(),
        r <= b@.len(),
{
    let ghost x = texts(a@);
    let ghost y = texts(b@);
    let mut i: usize = 0;
    assert(x.skip(0) == x);
    assert(y.skip(0) == y);
    while i < a.len() && i < b.len() && same_text(a[i].as_str(), b[i].as_str())
        invariant
            i <= a@.len(),
            i <= b@.len(),
            x == texts(a@),
            y == texts(b@),
            shared_parts(x, y) == i + shared_parts(x.skip(i as int), y.skip(i as int)),
        decreases a@.len() - i,
    {
        assert(x.skip(i as int)[0] == a@[i as int]@);
        assert(y.skip(i as int)[0] == b@[i as int]@);
        assert(x.skip(i as int).drop_first() == x.skip(i as int + 1));
        assert(y.skip(i as int).drop_first() == y.skip(i as int + 1));
        i += 1;
    }
    proof {
        if i < a@.len() && i < b@.len() {
            assert(x.skip(i as int)[0] == a@[i as int]@);
            assert(y.skip(i as int)[0] == b@[i as int]@);
        }
    }
    i
}

/// Adds the rows of `item` behind those of an entry in the directories
/// `open`.
fn push_entry_rows(rows: &mut Vec<MacroTreeRow>, open: &Vec<String>, item: &TreeItem)
    ensures
        row_texts(final(rows)@) == row_texts(old(rows)@) + entry_rows(
            texts(open@),
            item_entry(*item),
        ),
{
    let ghost e = item_entry(*item);
    let ghost start = row_texts(rows@);
    let shared: usize = shared_count(open, &item.dirs);
    let ghost k = shared as int;
    let ghost dirs = Seq::new((e.dirs.len() - k) as nat, |j: int| dir_row(e.dirs[k + j], k + j));
    let mut i: usize = shared;
    assert(start + dirs.take(0) == start);
    while i < item.dirs.len()
        invariant
            shared <= i <= item.dirs@.len(),
            k == shared,
            e == item_entry(*item),
            dirs == Seq::new((e.dirs.len() - k) as nat, |j: int| dir_row(e.dirs[k + j], k + j)),
            row_texts(rows@) == start + dirs.take(i - k),
        decreases item.dirs@.len() - i,
    {
        let ghost before = rows@;
        let row: MacroTreeRow = MacroTreeRow {
            kind: "dir",
            label: item.dirs[i].clone(),
            depth: i,
            model_id: String::new(),
        };
        let ghost t = row@;
        assert(e.dirs[i as int] == item.dirs@[i as int]@);
        assert(t == dirs[i - k]);
        rows.push(row);
        assert(row_texts(rows@) == row_texts(before).push(t));
        assert(start + dirs.take(i - k + 1) == (start + dirs.take(i - k)).push(t));
        i += 1;
    }
    assert(dirs.take(i - k) == dirs);
    let ghost before = rows@;
    let row: MacroTreeRow = MacroTreeRow {
        kind: "model",
        label: item.name.clone(),
        depth: item.dirs.len(),
        model_id: item.id.clone(),
    };
    let ghost t = row@;
    rows.push(row);
    assert(row_texts(rows@) == row_texts(before).push(t));
    assert((start + dirs).push(t) == start + dirs.push(t));
}

/// The models that a changed macro reaches as a tree of directories: each
/// directory row once where it opens, each model below its directories.
pub fn impacted_model_tree(current: &Manifest, radius: &StrSet) -> (r: Vec<MacroTreeRow>)
    ensures
        row_texts(r@) == tree_rows(tree_entries(*current, radius.list())),
{
    let ghost ids = radius.list();
    let ghost keyed = keyed_entries(*current, ids);
    let ghost f = |t: TreeItem| item_entry(t);
    let n: usize = radius.len();
    let mut found: Vec<Ranked<TreeItem>> = Vec::new();
    let mut i: usize = 0;
    while i < n
        invariant
            i <= n == ids.len(),
            ids == radius.list(),
            keyed == keyed_entries(*current, ids),
            f == (|t: TreeItem| item_entry(t)),
            renamed(ranks(found@), f) == keyed.take(i as int),
        decreases n - i,
    {
        let id: &String = radius.at(i);
        let path: String = node_path(current.nodes.get(id.as_str()));
        let (dirs, _file) = split_dir_path(Some(path.as_str()));
        let item: TreeItem = TreeItem {
            dirs,
            name: bare_name_of(current, id.as_str()).to_owned(),
            id: id.clone(),
        };
        let ghost e = item_entry(item);
        assert(e == entry_of(*current, ids[i as int]));
        let mut key: Vec<u64> = Vec::new();
        push_texts_field(&mut key, &item.dirs);
        push_text_field(&mut key, item.name.as_str());
        push_text_field(&mut key, item.id.as_str());
        assert(key@ == entry_key_of(e));
        let ghost before = found@;
        let ghost k = key@;
        found.push(Ranked { key, item });
        assert(renamed(ranks(found@), f) == renamed(ranks(before), f).push((k, e)));
        assert(keyed.take(i as int + 1) == keyed.take(i as int).push(keyed[i as int]));
        i += 1;
    }
    assert(keyed.take(i as int) == keyed);
    proof {
        lemma_sorted_map(ranks(found@), f);
    }
    let order: Vec<Ranked<TreeItem>> = sort_ranked(found);
    let ghost entries = tree_entries(*current, ids);
    assert(entries.len() == order@.len()) by {
        assert(renamed(ranks(order@), f).len() == order@.len());
    }
    let mut rows: Vec<MacroTreeRow> = Vec::new();
    let none: Vec<String> = Vec::new();
    let mut k: usize = 0;
    proof {
        assert(entries.take(0) == Seq::<TreeEntry>::empty());
        assert(row_texts(rows@) == Seq::<TreeRowText>::empty());
        assert(texts(none@) == Seq::<Seq<char>>::empty());
    }
    while k < order.len()
        invariant
            k <= order@.len(),
            entries.len() == order@.len(),
            f == (|t: TreeItem| item_entry(t)),
            entries == items(renamed(ranks(order@), f)),
            none@.len() == 0,
            texts(none@) == Seq::<Seq<char>>::empty(),
            row_texts(rows@) == tree_rows(entries.take(k as int)),
        decreases order@.len() - k,
    {
        proof {
            assert(entries[k as int] == item_entry(order@[k as int].item));
            assert(entries.take(k as int + 1).drop_last() == entries.take(k as int));
            assert(entries.take(k as int + 1).last() == entries[k as int]);
        }
        if k == 0 {
            push_entry_rows(&mut rows, &none, &order[k].item);
        } else {
            assert(entries.take(k as int).last() == item_entry(order@[k - 1].item));
            push_entry_rows(&mut rows, &order[k - 1].item.dirs, &order[k].item);
        }
        k += 1;
    }
    assert(entries.take(k as int) == entries);
    rows
}

/// The number of rows that show a model.
pub open spec fn model_rows(rows: Seq<TreeRowText>) -> nat
    decreases rows.len(),
{
    if rows.len() == 0 {
        0
    } else {
        model_rows(rows.drop_last()) + if rows.last().kind == "model"@ {
            1nat
        } else {
            0nat
        }
    }
}

proof fn lemma_model_rows_add(a: Seq<TreeRowText>, b: Seq<TreeRowText>)
    ensures
        model_rows(a + b) == model_rows(a) + model_rows(b),
    decreases b.len(),
{
    if b.len() == 0 {
        assert(a + b == a);
    } else {
        lemma_model_rows_add(a, b.drop_last());
        assert((a + b).drop_last() == a + b.drop_last());
        assert((a + b).last() == b.last());
    }
}

proof fn lemma_no_model_rows(rows: Seq<TreeRowText>)
    requires
        forall|i: int| 0 <= i < rows.len() ==> (#[trigger] rows[i]).kind == "dir"@,
    ensures
        model_rows(rows) == 0,
    decreases rows.len(),
{
    reveal_strlit("dir");
    reveal_strlit("model");
    if rows.len() > 0 {
        assert("dir"@.len() == 3 && "model"@.len() == 5);
        assert(rows[rows.len() - 1].kind == "dir"@);
        assert forall|i: int| 0 <= i < rows.drop_last().len() implies (
        #[trigger] rows.drop_last()[i]).kind == "dir"@ by {
            assert(rows[i].kind == "dir"@);
        }
        lemma_no_model_rows(rows.drop_last());
    }
}

/// Law: the tree shows each model once: as many rows show models as there are
/// models.
pub proof fn law_tree_shows_each_model(entries: Seq<TreeEntry>)
    ensures
        model_rows(tree_rows(entries)) == entries.len(),
    decreases entries.len(),
{
    if entries.len() > 0 {
        let head = entries.drop_last();
        law_tree_shows_each_model(head);
        let e = entries.last();
        let rows = entry_rows(open_after(head), e);
        lemma_shared_bounds(open_after(head), e.dirs);
        lemma_model_rows_add(tree_rows(head), rows);
        let dirs = rows.drop_last();
        assert forall|i: int| 0 <= i < dirs.len() implies (#[trigger] dirs[i]).kind == "dir"@ by {}
        lemma_no_model_rows(dirs);
        assert(rows.last() == model_row(e.name, e.dirs.len() as int, e.id));
    }
}

/// Law: the tree has an entry for each model, in order.
pub proof fn law_tree_entries(m: Manifest, ids: Seq<Seq<char>>)
    ensures
        tree_entries(m, ids).len() == ids.len(),
        sorted(keyed_entries(m, ids)).to_multiset() == keyed_entries(m, ids).to_multiset(),
        crate::order::ascending(sorted(keyed_entries(m, ids))),
{
    law_sorted(keyed_entries(m, ids));
}

/// Law: in the rows of an entry the depth goes up by one from row to row, and
/// the model stands one level below its innermost directory.
pub proof fn law_rows_nest(open: Seq<Seq<char>>, e: TreeEntry)
    ensures
        ({
            let rows = entry_rows(open, e);
            &&& rows.len() >= 1
            &&& rows.last() == model_row(e.name, e.dirs.len() as int, e.id)
            &&& forall|i: int| #![trigger rows[i]]
                0 <= i < rows.len() ==> rows[i].depth == e.dirs.len() - (rows.len() - 1 - i)
        }),
{
    lemma_shared_bounds(open, e.dirs);
}

/// `d` is a directory that `dirs` lead through.
pub open spec fn leads_through(dirs: Seq<Seq<char>>, d: Seq<Seq<char>>) -> bool {
    0 < d.len() <= dirs.len() && dirs.take(d.len() as int) == d
}

/// The directories that open with an entry behind one in the directories
/// `open`, each by its whole path.
pub open spec fn opened_by(open: Seq<Seq<char>>, e: TreeEntry) -> Seq<Seq<Seq<char>>> {
    let k = shared_parts(open, e.dirs);
    Seq::new((e.dirs.len() - k) as nat, |j: int| e.dirs.take(k + j + 1))
}

/// The directories that the tree opens, each by its whole path, in the order
/// of their rows.
pub open spec fn opened(entries: Seq<TreeEntry>) -> Seq<Seq<Seq<char>>>
    decreases entries.len(),
{
    if entries.len() == 0 {
        Seq::empty()
    } else {
        opened(entries.drop_last()) + opened_by(open_after(entries.drop_last()), entries.last())
    }
}

/// The row of a directory with the path `d`.
pub open spec fn path_row(d: Seq<Seq<char>>) -> TreeRowText {
    dir_row(d.last(), d.len() - 1)
}

/// The directory rows among `rows`.
pub open spec fn dir_rows(rows: Seq<TreeRowText>) -> Seq<TreeRowText> {
    rows.filter(|r: TreeRowText| r.kind == "dir"@)
}

proof fn lemma_only_dirs(rows: Seq<TreeRowText>)
    requires
        forall|i: int| 0 <= i < rows.len() ==> (#[trigger] rows[i]).kind == "dir"@,
    ensures
        dir_rows(rows) == rows,
    decreases rows.len(),
{
    reveal(Seq::filter);
    if rows.len() > 0 {
        let head = rows.drop_last();
        assert forall|i: int| 0 <= i < head.len() implies (#[trigger] head[i]).kind == "dir"@ by {
            assert(rows[i].kind == "dir"@);
        }
        lemma_only_dirs(head);
        assert(rows[rows.len() - 1].kind == "dir"@);
        assert(head.push(rows.last()) == rows);
    } else {
        assert(dir_rows(rows) == rows);
    }
}

proof fn lemma_dir_rows(entries: Seq<TreeEntry>)
    ensures
        dir_rows(tree_rows(entries)) == opened(entries).map_values(
            |d: Seq<Seq<char>>| path_row(d),
        ),
    decreases entries.len(),
{
    reveal(Seq::filter);
    let f = |d: Seq<Seq<char>>| path_row(d);
    let p = |r: TreeRowText| r.kind == "dir"@;
    if entries.len() > 0 {
        let head = entries.drop_last();
        let e = entries.last();
        let open = open_after(head);
        lemma_dir_rows(head);
        lemma_shared_bounds(open, e.dirs);
        let rows = entry_rows(open, e);
        let dirs = rows.drop_last();
        let fresh = opened_by(open, e);
        assert(dirs =~= fresh.map_values(f)) by {
            let k = shared_parts(open, e.dirs);
            assert forall|j: int| 0 <= j < dirs.len() implies #[trigger] dirs[j]
                == fresh.map_values(f)[j] by {
                assert(fresh[j] == e.dirs.take(k + j + 1));
                assert(fresh[j].last() == e.dirs[k + j]);
            }
        }
        assert forall|i: int| 0 <= i < dirs.len() implies (#[trigger] dirs[i]).kind == "dir"@ by {}
        lemma_only_dirs(dirs);
        reveal_strlit("dir");
        reveal_strlit("model");
        assert("dir"@.len() != "model"@.len());
        assert(rows.last() == model_row(e.name, e.dirs.len() as int, e.id));
        assert(!p(rows.last()));
        assert(dir_rows(rows) == dirs);
        Seq::filter_distributes_over_add(tree_rows(head), rows, p);
        assert((opened(head) + fresh).map_values(f) == opened(head).map_values(f)
            + fresh.map_values(f));
    } else {
        assert(dir_rows(tree_rows(entries)) == opened(entries).map_values(f));
    }
}

proof fn lemma_opened(entries: Seq<TreeEntry>, d: Seq<Seq<char>>)
    ensures
        opened(entries).contains(d) <==> exists|i: int|
            0 <= i < entries.len() && leads_through((#[trigger] entries[i]).dirs, d),
    decreases entries.len(),
{
    if entries.len() > 0 {
        let head = entries.drop_last();
        let e = entries.last();
        let open = open_after(head);
        let k = shared_parts(open, e.dirs);
        let old = opened(head);
        let fresh = opened_by(open, e);
        let all = opened(entries);
        lemma_opened(head, d);
        lemma_shared_bounds(open, e.dirs);
        assert(entries[entries.len() - 1] == e);
        if all.contains(d) {
            let x = choose|x: int| 0 <= x < all.len() && all[x] == d;
            if x < old.len() {
                assert(old[x] == d);
                let i = choose|i: int|
                    0 <= i < head.len() && leads_through((#[trigger] head[i]).dirs, d);
                assert(entries[i] == head[i]);
            } else {
                assert(fresh[x - old.len()] == d);
                assert(leads_through(e.dirs, d));
            }
        }
        if exists|i: int| 0 <= i < entries.len() && leads_through((#[trigger] entries[i]).dirs, d) {
            let i = choose|i: int|
                0 <= i < entries.len() && leads_through((#[trigger] entries[i]).dirs, d);
            if i < head.len() {
                assert(head[i] == entries[i]);
                assert(old.contains(d));
            } else if d.len() > k {
                let j = d.len() - k - 1;
                assert(fresh[j] == d);
                assert(all[old.len() + j] == d);
            } else {
                assert(open.take(d.len() as int) =~= d);
                assert(leads_through(open, d));
                assert(leads_through(head[head.len() - 1].dirs, d));
                assert(old.contains(d));
            }
            if old.contains(d) {
                let x = choose|x: int| 0 <= x < old.len() && old[x] == d;
                assert(all[x] == d);
            }
        }
    }
}

/// Between two paths through the same directory, in order, there are only
/// paths through it.
proof fn lemma_between(
    a: Seq<Seq<char>>,
    b: Seq<Seq<char>>,
    c: Seq<Seq<char>>,
    n: int,
)
    requires
        !list_lt(b, a),
        !list_lt(c, b),
        0 <= n <= a.len(),
        n <= c.len(),
        a.take(n) == c.take(n),
    ensures
        n <= b.len(),
        b.take(n) == a.take(n),
    decreases n,
{
    if n > 0 {
        assert(a.take(n)[0] == c.take(n)[0]);
        lemma_text_total(a[0], b[0]);
        let x = a.drop_first();
        let y = b.drop_first();
        let z = c.drop_first();
        assert(x.take(n - 1) == a.take(n).drop_first());
        assert(z.take(n - 1) == c.take(n).drop_first());
        lemma_between(x, y, z, n - 1);
        assert(y.take(n - 1) == b.take(n).drop_first());
        assert(a.take(n) == seq![a[0]] + x.take(n - 1));
        assert(b.take(n) == seq![b[0]] + y.take(n - 1));
    } else {
        assert(b.take(n) == a.take(n));
    }
}

/// The directories of the entries do not go back in order.
pub open spec fn dirs_ascend(entries: Seq<TreeEntry>) -> bool {
    forall|i: int, j: int|
        0 <= i < j < entries.len() ==> !list_lt(
            (#[trigger] entries[j]).dirs,
            (#[trigger] entries[i]).dirs,
        )
}

proof fn lemma_list_irreflexive(a: Seq<Seq<char>>)
    ensures
        !list_lt(a, a),
    decreases a.len(),
{
    if a.len() > 0 {
        lemma_lex_irreflexive(codes(a[0]));
        lemma_list_irreflexive(a.drop_first());
    }
}

proof fn lemma_opened_once(entries: Seq<TreeEntry>)
    requires
        dirs_ascend(entries),
    ensures
        opened(entries).no_duplicates(),
    decreases entries.len(),
{
    if entries.len() > 0 {
        let head = entries.drop_last();
        let e = entries.last();
        let open = open_after(head);
        let k = shared_parts(open, e.dirs);
        let old = opened(head);
        let fresh = opened_by(open, e);
        let all = opened(entries);
        assert(dirs_ascend(head)) by {
            assert forall|i: int, j: int| 0 <= i < j < head.len() implies !list_lt(
                (#[trigger] head[j]).dirs,
                (#[trigger] head[i]).dirs,
            ) by {
                assert(!list_lt(entries[j].dirs, entries[i].dirs));
            }
        }
        lemma_opened_once(head);
        lemma_shared_bounds(open, e.dirs);
        assert forall|x: int, y: int| 0 <= x < old.len() && 0 <= y < fresh.len() implies
            #[trigger] old[x] != #[trigger] fresh[y] by {
            let d = fresh[y];
            if old[x] == d {
                assert(old.contains(d));
                lemma_opened(head, d);
                let i = choose|i: int|
                    0 <= i < head.len() && leads_through((#[trigger] head[i]).dirs, d);
                let n = d.len() as int;
                assert(entries[i] == head[i]);
                let last = head.len() - 1;
                assert(entries[last] == head[last]);
                assert(open == entries[last].dirs);
                assert(entries[entries.len() - 1] == e);
                lemma_list_irreflexive(open);
                assert(!list_lt(open, entries[i].dirs));
                assert(!list_lt(e.dirs, open));
                assert(e.dirs.take(n) == d);
                lemma_between(entries[i].dirs, open, e.dirs, n);
                assert(open.take(n)[k] == e.dirs.take(n)[k]);
                assert(open[k] == e.dirs[k]);
            }
        }
        assert forall|x: int, y: int|
            0 <= x < all.len() && 0 <= y < all.len() && x != y implies #[trigger] all[x]
            != #[trigger] all[y] by {
            if x < old.len() && y < old.len() {
                assert(old[x] != old[y]);
            } else if x < old.len() {
                assert(old[x] != fresh[y - old.len()]);
            } else if y < old.len() {
                assert(old[y] != fresh[x - old.len()]);
            } else {
                assert(fresh[x - old.len()].len() != fresh[y - old.len()].len());
            }
        }
    }
}

proof fn lemma_tree_ascends(m: Manifest, ids: Seq<Seq<char>>)
    ensures
        dirs_ascend(tree_entries(m, ids)),
        forall|e: TreeEntry| #[trigger]
            tree_entries(m, ids).contains(e) <==> exists|i: int|
                0 <= i < ids.len() && e == entry_of(m, #[trigger] ids[i]),
{
    let keyed = keyed_entries(m, ids);
    let r = sorted(keyed);
    let entries = tree_entries(m, ids);
    law_sorted(keyed);
    r.to_multiset_ensures();
    keyed.to_multiset_ensures();
    assert forall|i: int| 0 <= i < r.len() implies exists|k: int|
        0 <= k < ids.len() && #[trigger] r[i] == (
            entry_key_of(entry_of(m, ids[k])),
            entry_of(m, #[trigger] ids[k]),
        ) by {
        assert(r.contains(r[i]));
        assert(keyed.to_multiset().contains(r[i]));
        assert(keyed.contains(r[i]));
        let k = choose|k: int| 0 <= k < keyed.len() && keyed[k] == r[i];
        assert(r[i] == (entry_key_of(entry_of(m, ids[k])), entry_of(m, ids[k])));
    }
    assert forall|i: int, j: int| 0 <= i < j < entries.len() implies !list_lt(
        (#[trigger] entries[j]).dirs,
        (#[trigger] entries[i]).dirs,
    ) by {
        assert(!lex_lt(r[j].0, r[i].0));
        let (a, b) = (entries[j], entries[i]);
        assert(r[j].0 == entry_key_of(a));
        assert(r[i].0 == entry_key_of(b));
        let x = text_field(a.name) + text_field(a.id);
        let y = text_field(b.name) + text_field(b.id);
        assert(entry_key_of(a) == texts_field(a.dirs) + x);
        assert(entry_key_of(b) == texts_field(b.dirs) + y);
        law_list_key_order(a.dirs, b.dirs, x, y);
    }
    assert forall|e: TreeEntry| #[trigger] entries.contains(e) <==> exists|i: int|
        0 <= i < ids.len() && e == entry_of(m, #[trigger] ids[i]) by {
        if entries.contains(e) {
            let i = choose|i: int| 0 <= i < entries.len() && entries[i] == e;
            assert(r[i].1 == e);
        }
        if exists|i: int| 0 <= i < ids.len() && e == entry_of(m, #[trigger] ids[i]) {
            let i = choose|i: int| 0 <= i < ids.len() && e == entry_of(m, #[trigger] ids[i]);
            assert(keyed[i].1 == e);
            assert(keyed.contains(keyed[i]));
            assert(r.to_multiset().contains(keyed[i]));
            assert(r.contains(keyed[i]));
            let k = choose|k: int| 0 <= k < r.len() && r[k] == keyed[i];
            assert(entries[k] == e);
        }
    }
}

/// Law: the tree has one row for each directory that leads to one of the
/// models, and no other directory row. The rows stand for the directories
/// `opened`, in order: each directory that a model's path leads through is
/// among them, none of them twice.
pub proof fn law_tree_shows_each_directory(m: Manifest, ids: Seq<Seq<char>>)
    ensures
        dir_rows(tree_rows(tree_entries(m, ids))) == opened(tree_entries(m, ids)).map_values(
            |d: Seq<Seq<char>>| path_row(d),
        ),
        opened(tree_entries(m, ids)).no_duplicates(),
        forall|d: Seq<Seq<char>>| #[trigger]
            opened(tree_entries(m, ids)).contains(d) <==> exists|i: int|
                0 <= i < ids.len() && leads_through(
                    path_parts(path_of(m, #[trigger] ids[i])).0,
                    d,
                ),
{
    let entries = tree_entries(m, ids);
    lemma_tree_ascends(m, ids);
    lemma_dir_rows(entries);
    lemma_opened_once(entries);
    assert forall|d: Seq<Seq<char>>| #[trigger] opened(entries).contains(d) <==> exists|i: int|
        0 <= i < ids.len() && leads_through(path_parts(path_of(m, #[trigger] ids[i])).0, d) by {
        lemma_opened(entries, d);
        if opened(entries).contains(d) {
            let k = choose|k: int|
                0 <= k < entries.len() && leads_through((#[trigger] entries[k]).dirs, d);
            assert(entries.contains(entries[k]));
            let i = choose|i: int| 0 <= i < ids.len() && entries[k] == entry_of(m, #[trigger] ids[i]);
            assert(leads_through(path_parts(path_of(m, ids[i])).0, d));
        }
        if exists|i: int|
            0 <= i < ids.len() && leads_through(path_parts(path_of(m, #[trigger] ids[i])).0, d) {
            let i = choose|i: int|
                0 <= i < ids.len() && leads_through(
                    path_parts(path_of(m, #[trigger] ids[i])).0,
                    d,
                );
            let e = entry_of(m, ids[i]);
            assert(entries.contains(e));
            let k = choose|k: int| 0 <= k < entries.len() && entries[k] == e;
            assert(leads_through(entries[k].dirs, d));
        }
    }
}

// ---------------------------------------------------------------------
// The graph of a macro
// ---------------------------------------------------------------------

/// How a model stands to a macro.
#[derive(Debug, Clone, Copy, PartialEq, Eq, Structural)]
pub enum MacroRole {
    User,
    Downstream,
}

/// A model in the lineage of a macro.
#[derive(Debug, PartialEq, Eq)]
pub struct LineageNode {
    pub id: String,
    pub name: String,
    pub macro_role: Option<MacroRole>,
    pub not_compiled: bool,
}

/// An edge of the graph of a macro.
#[derive(Debug, PartialEq, Eq)]
pub struct MacroDagEdge {
    pub from: String,
    pub to: String,
}

/// The lineage of a macro: the models that use it, and those downstream.
#[derive(Debug, PartialEq, Eq)]
pub struct MacroLineage {
    pub nodes: Vec<LineageNode>,
    pub edges: Vec<MacroDagEdge>,
}

/// A node of the graph of a macro.
#[derive(Debug, PartialEq, Eq)]
pub struct MacroDagNode {
    pub id: String,
    pub name: String,
    pub role: &'static str,
    pub not_compiled: bool,
}

/// The graph of a macro.
#[derive(Debug, PartialEq, Eq)]
pub struct MacroDagPayload {
    pub nodes: Vec<MacroDagNode>,
    pub edges: Vec<MacroDagEdge>,
}

/// `n` shows the model `l`: a user of the macro as such, any other as
/// downstream.
pub open spec fn shows_lineage_node(n: MacroDagNode, l: LineageNode) -> bool {
    &&& n.id == l.id
    &&& n.name == l.name
    &&& n.not_compiled == l.not_compiled
    &&& n.role@ == if l.macro_role == Some(MacroRole::User) {
        "user"@
    } else {
        "downstream"@
    }
}

/// `p` shows the lineage.
pub open spec fn shows_lineage(p: MacroDagPayload, lineage: MacroLineage) -> bool {
    &&& p.nodes@.len() == lineage.nodes@.len()
    &&& forall|i: int|
        0 <= i < p.nodes@.len() ==> shows_lineage_node(#[trigger] p.nodes@[i], lineage.nodes@[i])
    &&& p.edges == lineage.edges
}

/// The graph of a macro: its lineage, with each model as user or downstream.
pub fn build_macro_dag(lineage: MacroLineage) -> (r: MacroDagPayload)
    ensures
        shows_lineage(r, lineage),
{
    let MacroLineage { nodes, edges } = lineage;
    let mut out: Vec<MacroDagNode> = Vec::new();
    for l in it: nodes
        invariant
            it.seq() == nodes@,
            out@.len() == it.index(),
            forall|i: int|
                0 <= i < out@.len() ==> shows_lineage_node(#[trigger] out@[i], nodes@[i]),
    {
        let role: &'static str = match l.macro_role {
            Some(MacroRole::User) => "user",
            _ => "downstream",
        };
        out.push(
            MacroDagNode { id: l.id, name: l.name, role, not_compiled: l.not_compiled },
        );
    }
    MacroDagPayload { nodes: out, edges }
}

// ---------------------------------------------------------------------
// Changed macros
// ---------------------------------------------------------------------

/// What is known of a changed macro: the diff of its body, the models that it
/// reaches, and its lineage.
#[derive(Debug, PartialEq)]
pub struct MacroImpact {
    pub diff: Option<BlockDiff>,
    pub radius: StrSet,
    pub lineage: MacroLineage,
}

/// A changed macro in the lens.
#[derive(Debug, PartialEq, Eq)]
pub struct ChangedMacroView {
    pub name: String,
    pub package: String,
    pub path: String,
    pub diff: Option<BlockDiff>,
    pub body_lines: Vec<DiffLine>,
    pub impacted_count: usize,
    pub tree: Vec<MacroTreeRow>,
    pub impacted_models: Vec<ImpactedModelView>,
    pub inlined_count: usize,
    pub macro_dag: MacroDagPayload,
}

/// The lens.
#[derive(Debug, PartialEq, Eq)]
pub struct MacroLensPayload {
    pub macros: Vec<ChangedMacroView>,
    /// Whether the changes are exact or found by a heuristic.
    pub fidelity: &'static str,
}

/// The identity of a macro.
pub open spec fn identity_of(m: Manifest, id: Seq<char>) -> Option<MacroIdentity> {
    if m.macro_identity@.dom().contains(id) {
        Some(m.macro_identity@[id])
    } else {
        None
    }
}

/// The recorded package of a macro.
pub open spec fn package_of(m: Manifest, id: Seq<char>) -> Option<Seq<char>> {
    match identity_of(m, id) {
        Some(i) => opt_text(i.package_name),
        None => None,
    }
}

/// The macro belongs to the project: its package is the project, or one of
/// the two is not known.
pub open spec fn in_project(m: Manifest, id: Seq<char>) -> bool {
    match (package_of(m, id), opt_text(m.project_name)) {
        (Some(package), Some(project)) => package == project,
        _ => true,
    }
}

/// Whether a macro belongs to the project. One of which the package is not
/// known does.
pub fn is_root_project_macro(current: &Manifest, macro_id: &str) -> (r: bool)
    ensures
        r == in_project(*current, macro_id@),
{
    match current.macro_identity.get(macro_id) {
        Some(identity) => match (&identity.package_name, &current.project_name) {
            (Some(package), Some(project)) => same_text(package.as_str(), project.as_str()),
            _ => true,
        },
        None => true,
    }
}

/// The name of a macro: the recorded one, else the last part of its id.
pub open spec fn macro_name_of(m: Manifest, id: Seq<char>) -> Seq<char> {
    match identity_of(m, id) {
        Some(i) => match i.name {
            Some(n) => n@,
            None => leaf(id),
        },
        None => leaf(id),
    }
}

/// The package that is shown of a macro: the recorded one, else the project.
pub open spec fn shown_package(m: Manifest, id: Seq<char>) -> Seq<char> {
    match package_of(m, id) {
        Some(p) => p,
        None => match m.project_name {
            Some(p) => p@,
            None => Seq::empty(),
        },
    }
}

/// The file of a macro; empty where it is not known.
pub open spec fn macro_path(m: Manifest, id: Seq<char>) -> Seq<char> {
    match identity_of(m, id) {
        Some(i) => match i.original_file_path {
            Some(p) => p@,
            None => Seq::empty(),
        },
        None => Seq::empty(),
    }
}

/// The body of a macro; empty where it is not known.
pub open spec fn macro_body(m: Manifest, id: Seq<char>) -> Seq<char> {
    if m.macros@.dom().contains(id) {
        m.macros@[id]@
    } else {
        Seq::empty()
    }
}

/// `v` shows the changed macro `id`. A diff is shown only of a macro whose
/// file is known.
pub open spec fn shows_macro(
    v: ChangedMacroView,
    m: Manifest,
    id: Seq<char>,
    impact: MacroImpact,
    body_cap: usize,
) -> bool {
    let ids = impact.radius.list();
    &&& v.name@ == macro_name_of(m, id)
    &&& v.package@ == shown_package(m, id)
    &&& v.path@ == macro_path(m, id)
    &&& v.diff == if macro_path(m, id).len() == 0 {
        None
    } else {
        impact.diff
    }
    &&& is_context(v.body_lines@, macro_body(m, id))
    &&& v.impacted_count == ids.len()
    &&& row_texts(v.tree@) == tree_rows(tree_entries(m, ids))
    &&& shows_all_impacted(v.impacted_models@, m, ids, macro_name_of(m, id), body_cap)
    &&& v.inlined_count == if ids.len() <= body_cap {
        ids.len()
    } else {
        body_cap as nat
    }
    &&& shows_lineage(v.macro_dag, impact.lineage)
}

/// A changed macro in the lens: who it is, how its body changed, and the
/// models that it reaches.
pub fn changed_macro_view(
    current: &Manifest,
    macro_id: &str,
    impact: MacroImpact,
    body_cap: usize,
) -> (r: ChangedMacroView)
    ensures
        shows_macro(r, *current, macro_id@, impact, body_cap),
{
    let identity: Option<&MacroIdentity> = current.macro_identity.get(macro_id);
    let name: String = match identity {
        Some(i) => match &i.name {
            Some(n) => n.clone(),
            None => leaf_segment(macro_id).to_owned(),
        },
        None => leaf_segment(macro_id).to_owned(),
    };
    let recorded: Option<&String> = match identity {
        Some(i) => i.package_name.as_ref(),
        None => None,
    };
    let package: String = match recorded {
        Some(p) => p.clone(),
        None => opt_or_empty(current.project_name.as_ref()),
    };
    let path: String = match identity {
        Some(i) => opt_or_empty(i.original_file_path.as_ref()),
        None => String::new(),
    };
    let body: String = opt_or_empty(current.macros.get(macro_id));
    let MacroImpact { diff: known_diff, radius, lineage } = impact;
    let diff: Option<BlockDiff> = if path.as_str().is_empty() {
        None
    } else {
        known_diff
    };
    let body_lines: Vec<DiffLine> = macro_body_context_lines(body.as_str());
    let impacted_count: usize = radius.len();
    let tree: Vec<MacroTreeRow> = impacted_model_tree(current, &radius);
    let impacted_models: Vec<ImpactedModelView> = impacted_model_views(
        current,
        &radius,
        name.as_str(),
        body_cap,
    );
    let inlined_count: usize = if impacted_count <= body_cap {
        impacted_count
    } else {
        body_cap
    };
    let macro_dag: MacroDagPayload = build_macro_dag(lineage);
    ChangedMacroView {
        name,
        package,
        path,
        diff,
        body_lines,
        impacted_count,
        tree,
        impacted_models,
        inlined_count,
        macro_dag,
    }
}

/// The changed macros that belong to the project.
pub open spec fn project_macros(
    m: Manifest,
    changed: Seq<(Seq<char>, MacroImpact)>,
) -> Seq<(Seq<char>, MacroImpact)> {
    changed.filter(|e: (Seq<char>, MacroImpact)| in_project(m, e.0))
}

/// `lens` shows `macros`.
pub open spec fn shows_lens(
    lens: MacroLensPayload,
    m: Manifest,
    macros: Seq<(Seq<char>, MacroImpact)>,
    scope_source: ScopeSource,
    body_cap: usize,
) -> bool {
    &&& lens.macros@.len() == macros.len()
    &&& forall|i: int|
        0 <= i < macros.len() ==> shows_macro(
            #[trigger] lens.macros@[i],
            m,
            macros[i].0,
            macros[i].1,
            body_cap,
        )
    &&& lens.fidelity@ == match scope_source {
        ScopeSource::Baseline => "exact"@,
        ScopeSource::PrDiff => "heuristic"@,
    }
}

/// The lens on the changed macros of the project, in the order of their ids;
/// `None` where there is none.
pub fn build_macro_lens(
    current: &Manifest,
    changed_macros: StrMap<MacroImpact>,
    scope_source: ScopeSource,
    body_cap: usize,
) -> (r: Option<MacroLensPayload>)
    ensures
        r is None <==> project_macros(*current, changed_macros.entries()).len() == 0,
        r matches Some(lens) ==> shows_lens(
            lens,
            *current,
            project_macros(*current, changed_macros.entries()),
            scope_source,
            body_cap,
        ),
{
    let ghost es = changed_macros.entries();
    let ghost p = |e: (Seq<char>, MacroImpact)| in_project(*current, e.0);
    let rows: Vec<(String, MacroImpact)> = changed_macros.into_entries();
    let mut macros: Vec<ChangedMacroView> = Vec::new();
    proof {
        reveal(Seq::filter);
        assert(es.take(0) == Seq::<(Seq<char>, MacroImpact)>::empty());
    }
    for e in it: rows
        invariant
            it.seq() == rows@,
            p == (|e: (Seq<char>, MacroImpact)| in_project(*current, e.0)),
            rows@.len() == es.len(),
            forall|i: int|
                0 <= i < rows@.len() ==> (#[trigger] rows@[i]).0@ == es[i].0 && rows@[i].1
                    == es[i].1,
            macros@.len() == es.take(it.index() as int).filter(p).len(),
            forall|i: int|
                0 <= i < macros@.len() ==> shows_macro(
                    #[trigger] macros@[i],
                    *current,
                    es.take(it.index() as int).filter(p)[i].0,
                    es.take(it.index() as int).filter(p)[i].1,
                    body_cap,
                ),
    {
        let ghost k = it.index() as int;
        proof {
            reveal(Seq::filter);
            assert(es.take(k + 1).drop_last() == es.take(k));
            assert(es.take(k + 1).last() == es[k]);
            assert(rows@[k].0@ == es[k].0);
        }
        let (id, impact) = e;
        if is_root_project_macro(current, id.as_str()) {
            macros.push(changed_macro_view(current, id.as_str(), impact, body_cap));
        }
    }
    assert(es.take(es.len() as int) == es);
    if macros.len() == 0 {
        return None;
    }
    let fidelity: &'static str = match scope_source {
        ScopeSource::Baseline => "exact",
        ScopeSource::PrDiff => "heuristic",
    };
    Some(MacroLensPayload { macros, fidelity })
}

/// Law: the number of models stated as inlined is the number of models with an
/// inline body: the first ones, no more than the cap.
pub proof fn law_inlined_count(
    v: ChangedMacroView,
    m: Manifest,
    id: Seq<char>,
    impact: MacroImpact,
    body_cap: usize,
)
    requires
        shows_macro(v, m, id, impact, body_cap),
    ensures
        v.impacted_models@.len() == v.impacted_count,
        v.inlined_count <= body_cap,
        v.inlined_count <= v.impacted_count,
        forall|i: int|
            0 <= i < v.impacted_models@.len() ==> ((#[trigger] v.impacted_models@[i]).inline_body
                <==> i < v.inlined_count),
        forall|i: int|
            0 <= i < v.impacted_models@.len() ==> (#[trigger] v.impacted_models@[i]).call_sites@.len()
                <= v.impacted_models@[i].call_site_cap && v.impacted_models@[i].call_sites@.len()
                <= v.impacted_models@[i].call_site_total,
        model_rows(row_texts(v.tree@)) == v.impacted_count,
{
    let ids = impact.radius.list();
    law_tree_entries(m, ids);
    law_tree_shows_each_model(tree_entries(m, ids));
    assert forall|i: int| 0 <= i < v.impacted_models@.len() implies (
    #[trigger] v.impacted_models@[i]).call_sites@.len() <= v.impacted_models@[i].call_site_cap
        && v.impacted_models@[i].call_sites@.len() <= v.impacted_models@[i].call_site_total by {
        let x = v.impacted_models@[i];
        assert(shows_impacted(x, m, ids[i], macro_name_of(m, id), i, body_cap));
        assert(site_texts(x.call_sites@).len() == x.call_sites@.len());
    }
}

// ---------------------------------------------------------------------
// Laws on call sites and bodies
// ---------------------------------------------------------------------

/// Law: a call at a place is the name there, no word byte before it and an
/// opening parenthesis behind it.
pub proof fn law_call_at(b: Seq<u8>, name: Seq<u8>, at: int)
    ensures
        call_at(b, name, at) <==> occurs(b, name, at) && left_edge(b, at) && paren_follows(
            b,
            at + name.len(),
        ),
{
}

proof fn lemma_sites(lines: Seq<Seq<char>>, name: Seq<char>)
    ensures
        forall|x: int|
            0 <= x < sites_in(lines, name).len() ==> {
                let site = #[trigger] sites_in(lines, name)[x];
                &&& 1 <= site.0 <= lines.len()
                &&& invokes(lines[site.0 - 1], name)
                &&& site.1 == trimmed(lines[site.0 - 1])
            },
        forall|n: int|
            1 <= n <= lines.len() && invokes(#[trigger] lines[n - 1], name) ==> sites_in(
                lines,
                name,
            ).contains((n, trimmed(lines[n - 1]))),
        forall|x: int, y: int|
            0 <= x < y < sites_in(lines, name).len() ==> (#[trigger] sites_in(lines, name)[x]).0 < (
            #[trigger] sites_in(lines, name)[y]).0,
    decreases lines.len(),
{
    let all = sites_in(lines, name);
    if lines.len() > 0 {
        let d = lines.drop_last();
        let head = sites_in(d, name);
        lemma_sites(d, name);
        assert forall|x: int| 0 <= x < all.len() implies {
            let site = #[trigger] all[x];
            &&& 1 <= site.0 <= lines.len()
            &&& invokes(lines[site.0 - 1], name)
            &&& site.1 == trimmed(lines[site.0 - 1])
        } by {
            if x < head.len() {
                assert(all[x] == head[x]);
                assert(d[head[x].0 - 1] == lines[head[x].0 - 1]);
            }
        }
        assert forall|n: int|
            1 <= n <= lines.len() && invokes(#[trigger] lines[n - 1], name) implies all.contains(
            (n, trimmed(lines[n - 1])),
        ) by {
            let site = (n, trimmed(lines[n - 1]));
            if n <= d.len() {
                assert(d[n - 1] == lines[n - 1]);
                assert(head.contains(site));
                let x = choose|x: int| 0 <= x < head.len() && head[x] == site;
                assert(all[x] == site);
            } else {
                assert(all[all.len() - 1] == site);
            }
        }
        assert forall|x: int, y: int| 0 <= x < y < all.len() implies (#[trigger] all[x]).0 < (
        #[trigger] all[y]).0 by {
            assert(all[x] == head[x]);
            if y < head.len() {
                assert(all[y] == head[y]);
            }
        }
    }
}

/// Law: the call sites of a macro in a model are exactly the lines that call
/// it, from the first line to the last: each with its number, counted from
/// one, and its text without white space at the ends, in ascending order and
/// none twice.
pub proof fn law_call_sites(sites: Seq<CallSiteView>, raw: Seq<char>, name: Seq<char>)
    requires
        site_texts(sites) == call_sites(raw, name),
    ensures
        ({
            let lines = split_on(raw, '\n');
            &&& forall|x: int|
                0 <= x < sites.len() ==> {
                    let site = #[trigger] sites[x];
                    &&& 1 <= site.line <= lines.len()
                    &&& invokes(lines[site.line - 1], name)
                    &&& site.text@ == trimmed(lines[site.line - 1])
                }
            &&& raw.len() > 0 && name.len() > 0 ==> forall|n: int|
                1 <= n <= lines.len() && invokes(#[trigger] lines[n - 1], name) ==> exists|x: int|
                    0 <= x < sites.len() && (#[trigger] sites[x]).line == n && sites[x].text@
                        == trimmed(lines[n - 1])
            &&& forall|x: int, y: int|
                0 <= x < y < sites.len() ==> (#[trigger] sites[x]).line < (#[trigger] sites[y]).line
            &&& raw.len() == 0 || name.len() == 0 ==> sites.len() == 0
        }),
{
    let lines = split_on(raw, '\n');
    let all = call_sites(raw, name);
    assert(site_texts(sites).len() == sites.len());
    lemma_sites(lines, name);
    assert forall|x: int| 0 <= x < sites.len() implies #[trigger] all[x] == (
        sites[x].line as int,
        sites[x].text@,
    ) by {
        assert(site_texts(sites)[x] == site_text(sites[x]));
    }
    if raw.len() > 0 && name.len() > 0 {
        assert(all == sites_in(lines, name));
        assert forall|x: int| 0 <= x < sites.len() implies {
            let site = #[trigger] sites[x];
            &&& 1 <= site.line <= lines.len()
            &&& invokes(lines[site.line - 1], name)
            &&& site.text@ == trimmed(lines[site.line - 1])
        } by {
            assert(all[x] == (sites[x].line as int, sites[x].text@));
        }
        assert forall|n: int|
            1 <= n <= lines.len() && invokes(#[trigger] lines[n - 1], name) implies exists|x: int|
            0 <= x < sites.len() && (#[trigger] sites[x]).line == n && sites[x].text@ == trimmed(
                lines[n - 1],
            ) by {
            let site = (n, trimmed(lines[n - 1]));
            assert(all.contains(site));
            let x = choose|x: int| 0 <= x < all.len() && all[x] == site;
            assert(sites[x].line == n);
        }
        assert forall|x: int, y: int| 0 <= x < y < sites.len() implies (#[trigger] sites[x]).line
            < (#[trigger] sites[y]).line by {
            assert(all[x].0 < all[y].0);
        }
    }
}

/// Law: a body is shown line by line as context, from the first line to the
/// last; one line feed at its end begins no line, and an empty body has no
/// lines.
pub proof fn law_body_lines(lines: Seq<DiffLine>, body: Seq<char>)
    requires
        is_context(lines, body),
    ensures
        ({
            let parts = if body.len() > 0 && body.last() == '\n' {
                split_on(body.drop_last(), '\n')
            } else {
                split_on(body, '\n')
            };
            &&& body.len() == 0 ==> lines.len() == 0
            &&& body.len() > 0 ==> lines.len() == parts.len()
            &&& forall|i: int|
                0 <= i < lines.len() ==> (#[trigger] lines[i]).text@ == parts[i] && lines[i].kind
                    == DiffLineKind::Context && lines[i].emphasis is None
        }),
{
    assert forall|i: int| 0 <= i < lines.len() implies (#[trigger] lines[i]).kind
        == DiffLineKind::Context && lines[i].text@ == body_lines(body)[i] && lines[i].emphasis
        is None by {}
}

/// Law: the file and the source of a node are those that the manifest has for
/// it, and empty where it has none.
pub proof fn law_node_texts(m: Manifest, id: Seq<char>)
    ensures
        ({
            let known = m.nodes@.dom().contains(id);
            let n = m.nodes@[id];
            &&& known && n.original_file_path is Some ==> path_of(m, id) == n.original_file_path->0@
            &&& !known || n.original_file_path is None ==> path_of(m, id).len() == 0
            &&& known && n.raw_code is Some ==> raw_of(m, id) == n.raw_code->0@
            &&& !known || n.raw_code is None ==> raw_of(m, id).len() == 0
        }),
{
}

/// Law: every model that a macro reaches is shown, in order, with its id, its
/// name and its file. The first ones up to the cap show their source, the
/// number of their call sites and the first three of them; the others show
/// nothing of that.
pub proof fn law_impacted_shown(
    out: Seq<ImpactedModelView>,
    m: Manifest,
    ids: Seq<Seq<char>>,
    name: Seq<char>,
    cap: usize,
    i: int,
)
    requires
        shows_all_impacted(out, m, ids, name, cap),
        0 <= i < ids.len(),
    ensures
        out.len() == ids.len(),
        out[i].model_id@ == ids[i],
        out[i].name@ == bare_of(m, ids[i]),
        out[i].path@ == path_of(m, ids[i]),
        out[i].call_site_cap == 3,
        out[i].inline_body == (i < cap),
        i < cap ==> {
            let sites = call_sites(raw_of(m, ids[i]), name);
            &&& is_context(out[i].sql_lines@, raw_of(m, ids[i]))
            &&& out[i].call_site_total == sites.len()
            &&& sites.len() <= 3 ==> site_texts(out[i].call_sites@) == sites
            &&& sites.len() > 3 ==> site_texts(out[i].call_sites@) == sites.take(3)
        },
        i >= cap ==> out[i].sql_lines@.len() == 0 && out[i].call_sites@.len() == 0
            && out[i].call_site_total == 0,
{
    assert(shows_impacted(out[i], m, ids[i], name, i, cap));
}

// ---------------------------------------------------------------------
// Laws on the tree
// ---------------------------------------------------------------------

/// Law: the directories and the file of a path are its parts between slashes;
/// slashes at its ends do not count, and a path with nothing else has one
/// directory that says so.
pub proof fn law_path_parts(before: Seq<char>, path: Seq<char>, behind: Seq<char>)
    requires
        forall|i: int| 0 <= i < before.len() ==> #[trigger] before[i] == '/',
        forall|i: int| 0 <= i < behind.len() ==> #[trigger] behind[i] == '/',
        path.len() > 0 ==> path[0] != '/' && path.last() != '/',
    ensures
        path.len() == 0 ==> path_parts(before + path + behind) == (
            seq!["(unknown path)"@],
            Seq::<char>::empty(),
        ),
        path.len() > 0 ==> path_parts(before + path + behind).0.push(
            path_parts(before + path + behind).1,
        ) == split_on(path, '/'),
{
    let k = Class::Is('/');
    crate::text::lemma_split_some(path, '/');
    if path.len() > 0 {
        assert(before + path + behind == before + (path + behind));
        lemma_strip_run(k, before, path + behind);
        lemma_strip_run_behind(k, path, behind);
        let parts = split_on(path, '/');
        assert(parts.drop_last().push(parts.last()) == parts);
    } else {
        let all = before + path + behind;
        assert forall|i: int| 0 <= i < all.len() implies k.has(#[trigger] all[i]) by {
            if i < before.len() {
                assert(before[i] == '/');
            } else {
                assert(behind[i - before.len()] == '/');
            }
        }
        lemma_strip_run(k, all, Seq::empty());
        assert(all + Seq::<char>::empty() == all);
    }
}

/// Law: a model stands in the tree under the directories of its file, by its
/// bare name and with its id.
pub proof fn law_tree_entry(m: Manifest, id: Seq<char>)
    ensures
        entry_of(m, id).dirs == path_parts(path_of(m, id)).0,
        entry_of(m, id).name == bare_of(m, id),
        entry_of(m, id).id == id,
{
}

/// `a` comes before `b` in the tree: by directories, then by name, then by id.
pub open spec fn tree_before(a: TreeEntry, b: TreeEntry) -> bool {
    list_lt(a.dirs, b.dirs) || (a.dirs == b.dirs && (text_lt(a.name, b.name) || (a.name == b.name
        && text_lt(a.id, b.id))))
}

proof fn lemma_tree_before(a: TreeEntry, b: TreeEntry)
    ensures
        lex_lt(entry_key_of(a), entry_key_of(b)) == tree_before(a, b),
{
    let none = Seq::<u64>::empty();
    let (x, y) = (text_field(a.id), text_field(b.id));
    assert(x + none == x && y + none == y);
    law_key_order(a.id, b.id, none, none);
    law_key_order(a.name, b.name, x, y);
    law_list_key_order(a.dirs, b.dirs, text_field(a.name) + x, text_field(b.name) + y);
    assert(entry_key_of(a) == texts_field(a.dirs) + (text_field(a.name) + x));
    assert(entry_key_of(b) == texts_field(b.dirs) + (text_field(b.name) + y));
}

/// Law: the tree has an entry for each of the models and no other, by
/// directories, then by name, then by id.
pub proof fn law_tree_order(m: Manifest, ids: Seq<Seq<char>>)
    ensures
        tree_entries(m, ids).len() == ids.len(),
        tree_entries(m, ids).to_multiset() == ids.map_values(
            |id: Seq<char>| entry_of(m, id),
        ).to_multiset(),
        forall|i: int, j: int|
            0 <= i < j < ids.len() ==> !tree_before(
                #[trigger] tree_entries(m, ids)[j],
                #[trigger] tree_entries(m, ids)[i],
            ),
{
    let keyed = keyed_entries(m, ids);
    let r = sorted(keyed);
    let entries = tree_entries(m, ids);
    law_sorted(keyed);
    crate::order::lemma_items_multiset(keyed, r);
    assert(items(keyed) == ids.map_values(|id: Seq<char>| entry_of(m, id)));
    assert forall|i: int, j: int| 0 <= i < j < ids.len() implies !tree_before(
        #[trigger] entries[j],
        #[trigger] entries[i],
    ) by {
        r.to_multiset_ensures();
        keyed.to_multiset_ensures();
        assert(r.contains(r[i]) && r.contains(r[j]));
        assert(keyed.to_multiset().contains(r[i]) && keyed.to_multiset().contains(r[j]));
        let x = choose|x: int| 0 <= x < keyed.len() && keyed[x] == r[i];
        let y = choose|y: int| 0 <= y < keyed.len() && keyed[y] == r[j];
        assert(r[i].0 == entry_key_of(entries[i]));
        assert(r[j].0 == entry_key_of(entries[j]));
        assert(!lex_lt(r[j].0, r[i].0));
        lemma_tree_before(entries[j], entries[i]);
    }
}

/// Law: an entry more adds a row for each of its directories that it does not
/// share with the entry before it, from the outermost inwards, and then the
/// row of its model one level below them.
pub proof fn law_tree_rows(
    entries: Seq<TreeEntry>,
    open: Seq<Seq<char>>,
    e: TreeEntry,
    k: int,
)
    requires
        entries.len() == 0 ==> open == Seq::<Seq<char>>::empty(),
        entries.len() > 0 ==> open == entries.last().dirs,
        0 <= k <= open.len(),
        k <= e.dirs.len(),
        forall|i: int| 0 <= i < k ==> #[trigger] open[i] == e.dirs[i],
        k < open.len() && k < e.dirs.len() ==> open[k] != e.dirs[k],
    ensures
        tree_rows(Seq::empty()) == Seq::<TreeRowText>::empty(),
        ({
            let n = tree_rows(entries).len();
            let all = tree_rows(entries.push(e));
            &&& all.len() == n + (e.dirs.len() - k) + 1
            &&& all.take(n as int) == tree_rows(entries)
            &&& forall|j: int|
                k <= j < e.dirs.len() ==> all[n + j - k] == (TreeRowText {
                    kind: "dir"@,
                    label: #[trigger] e.dirs[j],
                    depth: j,
                    model_id: Seq::empty(),
                })
            &&& all.last() == (TreeRowText {
                kind: "model"@,
                label: e.name,
                depth: e.dirs.len() as int,
                model_id: e.id,
            })
        }),
{
    assert(entries.push(e).drop_last() == entries);
    assert(open == open_after(entries));
    lemma_shared_bounds(open, e.dirs);
    let s = shared_parts(open, e.dirs);
    assert(s == k) by {
        if s < k {
            assert(open[s] == e.dirs[s]);
        }
    }
    let all = tree_rows(entries.push(e));
    let n = tree_rows(entries).len();
    assert(all.take(n as int) =~= tree_rows(entries));
    let rows = entry_rows(open, e);
    assert forall|j: int| k <= j < e.dirs.len() implies all[n + j - k] == (TreeRowText {
        kind: "dir"@,
        label: #[trigger] e.dirs[j],
        depth: j,
        model_id: Seq::empty(),
    }) by {
        assert(all[n + j - k] == rows[j - k]);
        assert(rows[j - k] == dir_row(e.dirs[k + (j - k)], k + (j - k)));
    }
}

/// Law: the texts of a row are its kind, its label, its depth and its model.
pub proof fn law_row_view(r: MacroTreeRow, v: Seq<MacroTreeRow>)
    ensures
        r@.kind == r.kind@,
        r@.label == r.label@,
        r@.depth == r.depth,
        r@.model_id == r.model_id@,
        row_texts(v).len() == v.len(),
        forall|i: int| 0 <= i < v.len() ==> #[trigger] row_texts(v)[i] == v[i]@,
{
}

// ---------------------------------------------------------------------
// Laws on the lens
// ---------------------------------------------------------------------

/// Law: the graph of a macro shows each model of its lineage, in order, as it
/// is, a user of the macro as such and any other as downstream; its edges are
/// those of the lineage.
pub proof fn law_lineage_shown(p: MacroDagPayload, lineage: MacroLineage)
    requires
        shows_lineage(p, lineage),
    ensures
        p.nodes@.len() == lineage.nodes@.len(),
        p.edges == lineage.edges,
        forall|i: int|
            0 <= i < p.nodes@.len() ==> (#[trigger] p.nodes@[i]).id == lineage.nodes@[i].id
                && p.nodes@[i].name == lineage.nodes@[i].name && p.nodes@[i].not_compiled
                == lineage.nodes@[i].not_compiled,
        forall|i: int|
            0 <= i < p.nodes@.len() && lineage.nodes@[i].macro_role == Some(MacroRole::User) ==> (
            #[trigger] p.nodes@[i]).role@ == "user"@,
        forall|i: int|
            0 <= i < p.nodes@.len() && lineage.nodes@[i].macro_role != Some(MacroRole::User) ==> (
            #[trigger] p.nodes@[i]).role@ == "downstream"@,
{
    assert forall|i: int| 0 <= i < p.nodes@.len() implies shows_lineage_node(
        #[trigger] p.nodes@[i],
        lineage.nodes@[i],
    ) by {}
}

/// Law: what is recorded of a macro is shown: its name, else the last part of
/// its id; its package, else the project; its file and its body, where they
/// are known. It belongs to the project unless its package is known to be
/// another.
pub proof fn law_macro_identity(m: Manifest, id: Seq<char>)
    ensures
        ({
            let known = m.macro_identity@.dom().contains(id);
            let x = m.macro_identity@[id];
            &&& known && x.name is Some ==> macro_name_of(m, id) == x.name->0@
            &&& !known || x.name is None ==> macro_name_of(m, id) == leaf(id)
            &&& known && x.package_name is Some ==> shown_package(m, id) == x.package_name->0@
            &&& (!known || x.package_name is None) && m.project_name is Some ==> shown_package(
                m,
                id,
            ) == m.project_name->0@
            &&& (!known || x.package_name is None) && m.project_name is None ==> shown_package(
                m,
                id,
            ).len() == 0
            &&& known && x.original_file_path is Some ==> macro_path(m, id)
                == x.original_file_path->0@
            &&& !known || x.original_file_path is None ==> macro_path(m, id).len() == 0
            &&& in_project(m, id) <==> !(known && x.package_name is Some && m.project_name is Some
                && x.package_name->0@ != m.project_name->0@)
        }),
        m.macros@.dom().contains(id) ==> macro_body(m, id) == m.macros@[id]@,
        !m.macros@.dom().contains(id) ==> macro_body(m, id).len() == 0,
{
}

/// Law: a changed macro is shown with what is recorded of it, its body, its
/// diff where its file is known, and the models that it reaches: their number,
/// their tree, each of them, and how many carry their source.
pub proof fn law_macro_shown(
    v: ChangedMacroView,
    m: Manifest,
    id: Seq<char>,
    impact: MacroImpact,
    cap: usize,
)
    requires
        shows_macro(v, m, id, impact, cap),
    ensures
        v.name@ == macro_name_of(m, id),
        v.package@ == shown_package(m, id),
        v.path@ == macro_path(m, id),
        macro_path(m, id).len() > 0 ==> v.diff == impact.diff,
        macro_path(m, id).len() == 0 ==> v.diff is None,
        is_context(v.body_lines@, macro_body(m, id)),
        v.impacted_count == impact.radius.list().len(),
        row_texts(v.tree@) == tree_rows(tree_entries(m, impact.radius.list())),
        shows_all_impacted(
            v.impacted_models@,
            m,
            impact.radius.list(),
            macro_name_of(m, id),
            cap,
        ),
        impact.radius.list().len() <= cap ==> v.inlined_count == impact.radius.list().len(),
        impact.radius.list().len() > cap ==> v.inlined_count == cap,
        shows_lineage(v.macro_dag, impact.lineage),
{
}

/// Law: the lens shows each changed macro of the project, in order, and says
/// that the changes are exact for a baseline and found by a heuristic for a
/// pull request.
pub proof fn law_lens_shown(
    lens: MacroLensPayload,
    m: Manifest,
    changed: Seq<(Seq<char>, MacroImpact)>,
    source: ScopeSource,
    cap: usize,
)
    requires
        shows_lens(lens, m, project_macros(m, changed), source, cap),
    ensures
        ({
            let own = changed.filter(|e: (Seq<char>, MacroImpact)| in_project(m, e.0));
            &&& lens.macros@.len() == own.len()
            &&& forall|i: int|
                0 <= i < own.len() ==> shows_macro(
                    #[trigger] lens.macros@[i],
                    m,
                    own[i].0,
                    own[i].1,
                    cap,
                )
        }),
        source == ScopeSource::Baseline ==> lens.fidelity@ == "exact"@,
        source == ScopeSource::PrDiff ==> lens.fidelity@ == "heuristic"@,
{
}

} // verus!
