//! The control zones of a model's Jinja source: `{% if %}` and `{% for %}`
//! blocks, paired by depth.
use vstd::prelude::*;
use vstd::string::*;
use vstd::utf8::*;
use crate::scan::{
    call_paren_follows, closer_at, expr_close, find_close, find_expr_close, left_edge, occurs,
    occurs_at, offset_in_string_literal, paren_follows, plain_close, quote_at, right_edge,
    token_left_boundary_ok, token_right_boundary_ok,
};
use crate::span::{
    byte_span, lemma_ascii_boundaries, lemma_text_bytes, slice, sliceable, span_at, SourceSpan,
};
use crate::text::{
    first_word, is_white, law_first_word, leading_word, lemma_strip_blank, lemma_strip_blank_behind,
    same_text, strip_back, strip_end, strip_front, strip_start, without_prefix, without_suffix,
    Class,
};

verus! {

/// What a control zone is for.
#[derive(Debug, Clone, Copy, PartialEq, Eq, Structural)]
pub enum ZoneKind {
    /// An `{% if %}` block whose condition calls `is_incremental()`.
    IncrementalGuard,
    /// A `{% for %}` block.
    ForLoop,
}

/// One control zone: its kind, the span of the whole construct from the
/// opening tag through the closing tag, and the number of the opening tag.
#[derive(Debug, Clone, Copy, PartialEq, Eq, Structural)]
pub struct ZoneFact {
    pub kind: ZoneKind,
    pub raw_span: SourceSpan,
    pub block_id: u32,
}

/// What kind of block an opening tag opens.
#[derive(Debug, Clone, Copy, PartialEq, Eq, Structural)]
pub enum BlockKind {
    IncrementalGuard,
    ForLoop,
    PlainIf,
}

/// Which family of blocks a closing tag closes.
#[derive(Debug, Clone, Copy, PartialEq, Eq, Structural)]
pub enum EndKind {
    If,
    For,
}

/// What a block tag does.
#[allow(inconsistent_fields)]
#[derive(Debug, Clone, Copy, PartialEq, Eq, Structural)]
pub enum TagRole {
    /// Opens a block.
    Start { kind: BlockKind },
    /// Divides a block (`else`, `elif`).
    Mid,
    /// Closes a block.
    End { kind: EndKind },
    /// Takes no part in the pairing.
    Other,
}

/// A `{% … %}` tag: the half-open byte range of the whole tag, and its role.
#[derive(Debug, Clone, Copy, PartialEq, Eq, Structural)]
pub struct BlockTag {
    pub open: usize,
    pub close: usize,
    pub role: TagRole,
}

impl BlockKind {
    /// The kind of zone that a block of this kind is, if it is one.
    pub open spec fn zone(self) -> Option<ZoneKind> {
        match self {
            BlockKind::IncrementalGuard => Some(ZoneKind::IncrementalGuard),
            BlockKind::ForLoop => Some(ZoneKind::ForLoop),
            BlockKind::PlainIf => None,
        }
    }

    /// A closing tag of family `closer` closes a block of this kind.
    pub open spec fn pairs(self, closer: EndKind) -> bool {
        match self {
            BlockKind::ForLoop => closer == EndKind::For,
            _ => closer == EndKind::If,
        }
    }

    /// The kind of zone that a block of this kind is; a plain `{% if %}` is
    /// none.
    pub fn zone_kind(self) -> (r: Option<ZoneKind>)
        ensures
            r == self.zone(),
    {
        match self {
            BlockKind::IncrementalGuard => Some(ZoneKind::IncrementalGuard),
            BlockKind::ForLoop => Some(ZoneKind::ForLoop),
            BlockKind::PlainIf => None,
        }
    }

    /// Whether a closing tag of family `closer` closes a block of this kind.
    pub fn closes_with(self, closer: EndKind) -> (r: bool)
        ensures
            r == self.pairs(closer),
    {
        match (self, closer) {
            (BlockKind::ForLoop, EndKind::For) => true,
            (BlockKind::ForLoop, EndKind::If) => false,
            (_, EndKind::If) => true,
            (_, EndKind::For) => false,
        }
    }
}

// ---------------------------------------------------------------------
// Reading one tag
// ---------------------------------------------------------------------

/// The bytes of the name `is_incremental`.
pub open spec fn guard_name() -> Seq<u8> {
    encode_utf8("is_incremental"@)
}

/// A call of `is_incremental` stands in `b` at `at`: the name as a whole
/// identifier, outside string literals, with an opening parenthesis behind
/// it.
pub open spec fn guard_call_at(b: Seq<u8>, at: int) -> bool {
    &&& occurs(b, guard_name(), at)
    &&& left_edge(b, at)
    &&& right_edge(b, at + guard_name().len())
    &&& paren_follows(b, at + guard_name().len())
    &&& quote_at(b, 0, None, at) is None
}

/// A call of `is_incremental` stands somewhere in `b`.
pub open spec fn calls_guard(b: Seq<u8>) -> bool {
    exists|at: int| #[trigger] guard_call_at(b, at)
}

/// Whether a condition calls `is_incremental`.
pub fn mentions_is_incremental_call(cond: &str) -> (r: bool)
    ensures
        r == calls_guard(cond.spec_bytes()),
{
    let token: &str = "is_incremental";
    let bytes: &[u8] = cond.as_bytes();
    let name: &[u8] = token.as_bytes();
    let mut at: usize = 0;
    while at < bytes.len()
        invariant
            at <= bytes@.len(),
            bytes@ == cond.spec_bytes(),
            name@ == guard_name(),
            forall|j: int| 0 <= j < at ==> !guard_call_at(bytes@, j),
        decreases bytes@.len() - at,
    {
        if occurs_at(bytes, name, at) {
            let after: usize = at + name.len();
            if token_left_boundary_ok(bytes, at) && token_right_boundary_ok(bytes, after)
                && call_paren_follows(bytes, after) && !offset_in_string_literal(bytes, at) {
                assert(guard_call_at(bytes@, at as int));
                return true;
            }
        }
        at += 1;
    }
    assert forall|j: int| !guard_call_at(bytes@, j) by {
        if guard_call_at(bytes@, j) && j >= at {
            assert(crate::scan::past_blanks(bytes@, j + guard_name().len()) >= bytes@.len()) by {
                lemma_past_blanks_grows(bytes@, j + guard_name().len());
            }
        }
    }
    false
}

proof fn lemma_past_blanks_grows(b: Seq<u8>, i: int)
    ensures
        crate::scan::past_blanks(b, i) >= i,
    decreases b.len() - i,
{
    if 0 <= i < b.len() && crate::scan::blank_byte(b[i]) {
        lemma_past_blanks_grows(b, i + 1);
    }
}

/// `s` without one dash at its beginning.
pub open spec fn without_dash_before(s: Seq<char>) -> Seq<char> {
    if s.len() > 0 && s[0] == '-' {
        s.drop_first()
    } else {
        s
    }
}

/// `s` without one dash at its end.
pub open spec fn without_dash_behind(s: Seq<char>) -> Seq<char> {
    if s.len() > 0 && s.last() == '-' {
        s.drop_last()
    } else {
        s
    }
}

/// `s` without one dash at its beginning.
fn drop_dash_before<'a>(s: &'a str) -> (r: &'a str)
    ensures
        r@ == without_dash_before(s@),
{
    let n: usize = s.unicode_len();
    if n > 0 && s.get_char(0) == '-' {
        let r: &'a str = s.substring_char(1, n);
        assert(r@ == s@.drop_first());
        r
    } else {
        s
    }
}

/// `s` without one dash at its end.
fn drop_dash_behind<'a>(s: &'a str) -> (r: &'a str)
    ensures
        r@ == without_dash_behind(s@),
{
    let n: usize = s.unicode_len();
    if n > 0 && s.get_char(n - 1) == '-' {
        let r: &'a str = s.substring_char(0, n - 1);
        assert(r@ == s@.drop_last());
        r
    } else {
        s
    }
}

/// The statement inside a tag: without the delimiters, the dash of white space
/// control at either end, and white space at the ends.
pub open spec fn tag_statement(tag: Seq<char>) -> Seq<char> {
    let opened = if "{%"@.is_prefix_of(tag) {
        tag.skip("{%"@.len() as int)
    } else {
        tag
    };
    let begun = strip_front(Class::White, without_dash_before(opened));
    let closed = if "%}"@.is_suffix_of(begun) {
        begun.take(begun.len() - "%}"@.len())
    } else {
        begun
    };
    strip_back(Class::White, without_dash_behind(strip_back(Class::White, closed)))
}

/// The role of a tag, by the first word of its statement. An `if` is an
/// incremental guard where its statement calls `is_incremental`.
pub open spec fn tag_role(tag: Seq<char>) -> TagRole {
    let statement = tag_statement(tag);
    let keyword = first_word(statement);
    if keyword == "if"@ {
        TagRole::Start {
            kind: if calls_guard(encode_utf8(statement)) {
                BlockKind::IncrementalGuard
            } else {
                BlockKind::PlainIf
            },
        }
    } else if keyword == "for"@ {
        TagRole::Start { kind: BlockKind::ForLoop }
    } else if keyword == "endif"@ {
        TagRole::End { kind: EndKind::If }
    } else if keyword == "endfor"@ {
        TagRole::End { kind: EndKind::For }
    } else if keyword == "else"@ || keyword == "elif"@ {
        TagRole::Mid
    } else {
        TagRole::Other
    }
}

/// The role of a whole `{% … %}` tag.
pub fn classify_block_tag(tag: &str) -> (r: TagRole)
    ensures
        r == tag_role(tag@),
{
    let opened: &str = match without_prefix(tag, "{%") {
        Some(t) => t,
        None => tag,
    };
    let begun: &str = strip_start(Class::White, drop_dash_before(opened));
    let closed: &str = match without_suffix(begun, "%}") {
        Some(t) => t,
        None => begun,
    };
    let inner: &str = strip_end(Class::White, drop_dash_behind(strip_end(Class::White, closed)));
    let keyword: &str = leading_word(inner);
    if same_text(keyword, "if") {
        let kind: BlockKind = if mentions_is_incremental_call(inner) {
            BlockKind::IncrementalGuard
        } else {
            BlockKind::PlainIf
        };
        TagRole::Start { kind }
    } else if same_text(keyword, "for") {
        TagRole::Start { kind: BlockKind::ForLoop }
    } else if same_text(keyword, "endif") {
        TagRole::End { kind: EndKind::If }
    } else if same_text(keyword, "endfor") {
        TagRole::End { kind: EndKind::For }
    } else if same_text(keyword, "else") || same_text(keyword, "elif") {
        TagRole::Mid
    } else {
        TagRole::Other
    }
}

// ---------------------------------------------------------------------
// Reading all tags
// ---------------------------------------------------------------------

/// The tag over `open..close` of a text with the bytes `b`.
pub open spec fn tag_over(b: Seq<u8>, open: int, close: int) -> BlockTag {
    BlockTag {
        open: open as usize,
        close: close as usize,
        role: tag_role(decode_utf8(b.subrange(open, close))),
    }
}

/// The block tags of a text at or after `i`, comments and variable tags left
/// out; `None` where a construct is not terminated.
pub open spec fn tags_from(b: Seq<u8>, i: int) -> Option<Seq<BlockTag>>
    decreases b.len() - i,
{
    if i < 0 || i >= b.len() {
        Some(Seq::empty())
    } else if b[i] == 0x7b && i + 1 < b.len() && b[i + 1] == 0x23 {
        match plain_close(b, i + 2, 0x23) {
            Some(e) => if i < e <= b.len() {
                tags_from(b, e)
            } else {
                None
            },
            None => None,
        }
    } else if b[i] == 0x7b && i + 1 < b.len() && b[i + 1] == 0x7b {
        match expr_close(b, i + 2, None, 0x7d) {
            Some(e) => if i < e <= b.len() {
                tags_from(b, e)
            } else {
                None
            },
            None => None,
        }
    } else if b[i] == 0x7b && i + 1 < b.len() && b[i + 1] == 0x25 {
        match expr_close(b, i + 2, None, 0x25) {
            Some(e) => if i < e <= b.len() {
                match tags_from(b, e) {
                    Some(rest) => Some(seq![tag_over(b, i, e)] + rest),
                    None => None,
                }
            } else {
                None
            },
            None => None,
        }
    } else {
        tags_from(b, i + 1)
    }
}

/// `before` in front of the tags in `rest`, if there are any to be had.
pub open spec fn after_tags(before: Seq<BlockTag>, rest: Option<Seq<BlockTag>>) -> Option<
    Seq<BlockTag>,
> {
    match rest {
        Some(r) => Some(before + r),
        None => None,
    }
}

/// `tag` lies in a text with the bytes `b`, between its delimiters.
pub open spec fn tag_in(b: Seq<u8>, tag: BlockTag) -> bool {
    &&& tag.open + 4 <= tag.close <= b.len()
    &&& b[tag.open as int] == 0x7b && b[tag.open + 1] == 0x25
    &&& closer_at(b, tag.close - 2, 0x25)
}

/// The tags lie in the text, in order and apart from each other.
pub open spec fn tags_in(b: Seq<u8>, tags: Seq<BlockTag>) -> bool {
    &&& forall|k: int| 0 <= k < tags.len() ==> tag_in(b, #[trigger] tags[k])
    &&& forall|j: int, k: int|
        0 <= j < k < tags.len() ==> #[trigger] tags[j].close <= #[trigger] tags[k].open
}

/// The block tags of `raw_code`; `None` where a tag, a variable or a comment
/// is not terminated.
pub fn scan_block_tags(raw_code: &str) -> (r: Option<Vec<BlockTag>>)
    ensures
        match r {
            Some(tags) => tags_from(raw_code.spec_bytes(), 0) == Some(tags@),
            None => tags_from(raw_code.spec_bytes(), 0) is None,
        },
        r matches Some(tags) ==> tags_in(raw_code.spec_bytes(), tags@),
{
    let bytes: &[u8] = raw_code.as_bytes();
    let n: usize = bytes.len();
    let mut tags: Vec<BlockTag> = Vec::new();
    let mut i: usize = 0;
    assert(after_tags(tags@, tags_from(bytes@, 0)) == tags_from(bytes@, 0)) by {
        if let Some(t) = tags_from(bytes@, 0) {
            assert(Seq::<BlockTag>::empty() + t == t);
        }
    }
    while i < n
        invariant
            n == bytes@.len(),
            i <= n,
            bytes@ == raw_code.spec_bytes(),
            tags_from(bytes@, 0) == after_tags(tags@, tags_from(bytes@, i as int)),
            tags_in(bytes@, tags@),
            forall|k: int| 0 <= k < tags@.len() ==> #[trigger] tags@[k].close <= i,
        decreases n - i,
    {
        if bytes[i] == 0x7b && i + 1 < n {
            let second: u8 = bytes[i + 1];
            if second == 0x23 {
                match find_close(bytes, i + 2, 0x23) {
                    Some(close) => {
                        i = close;
                    },
                    None => {
                        return None;
                    },
                }
            } else if second == 0x7b {
                match find_expr_close(bytes, i + 2, 0x7d) {
                    Some(close) => {
                        i = close;
                    },
                    None => {
                        return None;
                    },
                }
            } else if second == 0x25 {
                match find_expr_close(bytes, i + 2, 0x25) {
                    Some(close) => {
                        proof {
                            lemma_text_bytes(raw_code);
                            lemma_ascii_boundaries(bytes@, i as int);
                            lemma_ascii_boundaries(bytes@, close - 1);
                        }
                        let role: TagRole = classify_block_tag(slice(raw_code, i, close));
                        let tag: BlockTag = BlockTag { open: i, close, role };
                        assert(tag == tag_over(bytes@, i as int, close as int));
                        let ghost before = tags@;
                        tags.push(tag);
                        proof {
                            if let Some(rest) = tags_from(bytes@, close as int) {
                                assert(before + (seq![tag] + rest) == tags@ + rest);
                            }
                        }
                        i = close;
                    },
                    None => {
                        return None;
                    },
                }
            } else {
                i += 1;
            }
        } else {
            i += 1;
        }
    }
    assert(tags@ + Seq::<BlockTag>::empty() == tags@);
    Some(tags)
}

// ---------------------------------------------------------------------
// Pairing tags into blocks
// ---------------------------------------------------------------------

/// A block that has been opened: its kind, where its opening tag begins and
/// the number of that tag.
#[derive(Debug, Clone, Copy, PartialEq, Eq, Structural)]
pub struct Opener {
    pub kind: BlockKind,
    pub open: usize,
    pub id: u32,
}

/// A block from its opening tag through its closing tag.
pub struct Block {
    pub kind: BlockKind,
    pub open: usize,
    pub close: usize,
    pub id: u32,
}

/// How far the pairing of tags has come: the blocks that are open, innermost
/// last; the number of the next opening tag; the blocks closed so far, in
/// the order of their closing tags.
pub struct Pairing {
    pub stack: Seq<Opener>,
    pub next: u32,
    pub blocks: Seq<Block>,
}

/// The number behind `n`, counting on from zero behind the largest.
pub open spec fn next_id(n: u32) -> u32 {
    if n == u32::MAX {
        0
    } else {
        (n + 1) as u32
    }
}

/// One tag more: an opening tag opens a block, a closing tag closes the
/// innermost open block, which must be of its family, and a dividing tag must
/// stand inside a block. `None` where the tag does not fit.
pub open spec fn pair_step(p: Pairing, tag: BlockTag) -> Option<Pairing> {
    match tag.role {
        TagRole::Start { kind } => Some(
            Pairing {
                stack: p.stack.push(Opener { kind, open: tag.open, id: p.next }),
                next: next_id(p.next),
                blocks: p.blocks,
            },
        ),
        TagRole::End { kind } => if p.stack.len() > 0 && p.stack.last().kind.pairs(kind) {
            let o = p.stack.last();
            Some(
                Pairing {
                    stack: p.stack.drop_last(),
                    next: p.next,
                    blocks: p.blocks.push(
                        Block { kind: o.kind, open: o.open, close: tag.close, id: o.id },
                    ),
                },
            )
        } else {
            None
        },
        TagRole::Mid => if p.stack.len() > 0 {
            Some(p)
        } else {
            None
        },
        TagRole::Other => Some(p),
    }
}

/// The pairing of `tags`, read left to right; `None` where one does not fit.
pub open spec fn pair(tags: Seq<BlockTag>) -> Option<Pairing>
    decreases tags.len(),
{
    if tags.len() == 0 {
        Some(Pairing { stack: Seq::empty(), next: 0, blocks: Seq::empty() })
    } else {
        match pair(tags.drop_last()) {
            Some(p) => pair_step(p, tags.last()),
            None => None,
        }
    }
}

/// The blocks of a balanced run of tags; `None` where it is not balanced.
pub open spec fn balanced_blocks(tags: Seq<BlockTag>) -> Option<Seq<Block>> {
    match pair(tags) {
        Some(p) => if p.stack.len() == 0 {
            Some(p.blocks)
        } else {
            None
        },
        None => None,
    }
}

/// The zones among `blocks`, in order, over a text with the bytes `b`.
pub open spec fn zone_facts(b: Seq<u8>, blocks: Seq<Block>) -> Seq<ZoneFact>
    decreases blocks.len(),
{
    if blocks.len() == 0 {
        Seq::empty()
    } else {
        let head = zone_facts(b, blocks.drop_last());
        let last = blocks.last();
        match last.kind.zone() {
            Some(kind) => head.push(
                ZoneFact {
                    kind,
                    raw_span: span_at(b, last.open as int, last.close as int),
                    block_id: last.id,
                },
            ),
            None => head,
        }
    }
}

/// The blocks of a text; `None` where a construct is not terminated or the
/// block tags are not balanced.
pub open spec fn text_blocks(b: Seq<u8>) -> Option<Seq<Block>> {
    match tags_from(b, 0) {
        Some(tags) => balanced_blocks(tags),
        None => None,
    }
}

/// The zones of a text; none at all where its tags are malformed.
pub open spec fn text_zones(b: Seq<u8>) -> Seq<ZoneFact> {
    match text_blocks(b) {
        Some(blocks) => zone_facts(b, blocks),
        None => Seq::empty(),
    }
}

proof fn lemma_pair_none(tags: Seq<BlockTag>, n: int)
    requires
        0 <= n <= tags.len(),
        pair(tags.take(n)) is None,
    ensures
        pair(tags) is None,
    decreases tags.len() - n,
{
    if n == tags.len() {
        assert(tags.take(n) == tags);
    } else {
        assert(tags.take(n + 1).drop_last() == tags.take(n));
        lemma_pair_none(tags, n + 1);
    }
}

/// The zones of `raw_code`: each `{% for %}` block and each `{% if %}` block
/// that is an incremental guard, inner blocks before outer ones. A source
/// with a construct that is not terminated, or whose block tags are not
/// balanced, has none.
pub fn locate_raw_zones(raw_code: &str) -> (r: Vec<ZoneFact>)
    ensures
        r@ == text_zones(raw_code.spec_bytes()),
{
    let tags: Vec<BlockTag> = match scan_block_tags(raw_code) {
        Some(tags) => tags,
        None => {
            return Vec::new();
        },
    };
    let ghost b = raw_code.spec_bytes();
    let mut stack: Vec<Opener> = Vec::new();
    let mut zones: Vec<ZoneFact> = Vec::new();
    let mut next_block_id: u32 = 0;
    let ghost mut blocks: Seq<Block> = Seq::empty();
    let mut i: usize = 0;
    assert(tags@.take(0) == Seq::<BlockTag>::empty());
    while i < tags.len()
        invariant
            i <= tags@.len(),
            b == raw_code.spec_bytes(),
            tags_from(b, 0) == Some(tags@),
            tags_in(b, tags@),
            pair(tags@.take(i as int)) == Some(
                Pairing { stack: stack@, next: next_block_id, blocks },
            ),
            zones@ == zone_facts(b, blocks),
            forall|k: int|
                0 <= k < stack@.len() ==> exists|t: int|
                    0 <= t < i && tags@[t].open == (#[trigger] stack@[k]).open,
        decreases tags@.len() - i,
    {
        let tag: BlockTag = tags[i];
        assert(tags@.take(i as int + 1).drop_last() == tags@.take(i as int));
        assert(tags@.take(i as int + 1).last() == tag);
        match tag.role {
            TagRole::Start { kind } => {
                stack.push(Opener { kind, open: tag.open, id: next_block_id });
                next_block_id = if next_block_id == u32::MAX {
                    0
                } else {
                    next_block_id + 1
                };
                assert(tags@[i as int].open == stack@[stack@.len() - 1].open);
            },
            TagRole::End { kind: end_kind } => {
                let ghost before = stack@;
                match stack.pop() {
                    Some(opener) => {
                        if !opener.kind.closes_with(end_kind) {
                            proof {
                                lemma_pair_none(tags@, i as int + 1);
                            }
                            return Vec::new();
                        }
                        assert(stack@ == before.drop_last());
                        proof {
                            let t = choose|t: int|
                                0 <= t < i && tags@[t].open == before[before.len() - 1].open;
                            assert(tag_in(b, tags@[t]));
                            assert(tag_in(b, tags@[i as int]));
                            assert(tags@[t].close <= tags@[i as int].open);
                            lemma_text_bytes(raw_code);
                            lemma_ascii_boundaries(b, opener.open as int);
                            lemma_ascii_boundaries(b, tag.close - 1);
                            assert(sliceable(b, opener.open as int, tag.close as int));
                        }
                        let ghost old_blocks = blocks;
                        proof {
                            blocks = blocks.push(
                                Block {
                                    kind: opener.kind,
                                    open: opener.open,
                                    close: tag.close,
                                    id: opener.id,
                                },
                            );
                            assert(blocks.drop_last() == old_blocks);
                        }
                        if let Some(zone_kind) = opener.kind.zone_kind() {
                            if let Some(raw_span) = byte_span(raw_code, opener.open, tag.close) {
                                zones.push(
                                    ZoneFact { kind: zone_kind, raw_span, block_id: opener.id },
                                );
                            }
                        }
                    },
                    None => {
                        proof {
                            lemma_pair_none(tags@, i as int + 1);
                        }
                        return Vec::new();
                    },
                }
            },
            TagRole::Mid => {
                if stack.len() == 0 {
                    proof {
                        lemma_pair_none(tags@, i as int + 1);
                    }
                    return Vec::new();
                }
            },
            TagRole::Other => {},
        }
        i += 1;
    }
    assert(tags@.take(i as int) == tags@);
    if stack.len() != 0 {
        return Vec::new();
    }
    zones
}

/// The number that stands for a kind of zone.
pub open spec fn zone_tag(kind: ZoneKind) -> u8 {
    match kind {
        ZoneKind::IncrementalGuard => 0,
        ZoneKind::ForLoop => 1,
    }
}

/// The zones of `raw_code` as plain numbers: the kind (0 for an incremental
/// guard, 1 for a loop), the first byte, the byte behind the last and the
/// number of the opening tag.
pub fn fuzz_locate_raw_zones(raw_code: &str) -> (r: Vec<(u8, u32, u32, u32)>)
    ensures
        r@ == text_zones(raw_code.spec_bytes()).map_values(
            |z: ZoneFact|
                (zone_tag(z.kind), z.raw_span.start.byte, z.raw_span.end.byte, z.block_id),
        ),
{
    let zones: Vec<ZoneFact> = locate_raw_zones(raw_code);
    let mut out: Vec<(u8, u32, u32, u32)> = Vec::new();
    let mut i: usize = 0;
    while i < zones.len()
        invariant
            i <= zones@.len(),
            out@ == zones@.take(i as int).map_values(
                |z: ZoneFact|
                    (zone_tag(z.kind), z.raw_span.start.byte, z.raw_span.end.byte, z.block_id),
            ),
        decreases zones@.len() - i,
    {
        let z: ZoneFact = zones[i];
        let kind_tag: u8 = match z.kind {
            ZoneKind::IncrementalGuard => 0,
            ZoneKind::ForLoop => 1,
        };
        out.push((kind_tag, z.raw_span.start.byte, z.raw_span.end.byte, z.block_id));
        i += 1;
    }
    assert(zones@.take(i as int) == zones@);
    out
}

// ---------------------------------------------------------------------
// Laws
// ---------------------------------------------------------------------

proof fn lemma_plain_close(b: Seq<u8>, from: int, delim: u8)
    requires
        0 <= from,
    ensures
        plain_close(b, from, delim) matches Some(e) ==> from + 2 <= e <= b.len(),
    decreases b.len() - from,
{
    if from + 1 < b.len() && !closer_at(b, from, delim) {
        lemma_plain_close(b, from + 1, delim);
    }
}

proof fn lemma_expr_close(b: Seq<u8>, i: int, quote: Option<u8>, delim: u8)
    requires
        0 <= i,
    ensures
        expr_close(b, i, quote, delim) matches Some(e) ==> i + 2 <= e <= b.len() && closer_at(
            b,
            e - 2,
            delim,
        ),
    decreases b.len() - i,
{
    if i < b.len() && !(quote is None && !crate::scan::is_quote(b[i]) && closer_at(b, i, delim)) {
        let (j, q) = crate::scan::quote_step(b, i, quote);
        lemma_expr_close(b, j, q, delim);
    }
}

proof fn lemma_tags_in(b: Seq<u8>, i: int)
    requires
        0 <= i,
        b.len() <= usize::MAX,
    ensures
        tags_from(b, i) matches Some(tags) ==> tags_in(b, tags) && forall|k: int|
            0 <= k < tags.len() ==> (#[trigger] tags[k]).open >= i,
    decreases b.len() - i,
{
    if i < b.len() {
        if b[i] == 0x7b && i + 1 < b.len() && b[i + 1] == 0x23 {
            lemma_plain_close(b, i + 2, 0x23);
            if let Some(e) = plain_close(b, i + 2, 0x23) {
                lemma_tags_in(b, e);
            }
        } else if b[i] == 0x7b && i + 1 < b.len() && b[i + 1] == 0x7b {
            lemma_expr_close(b, i + 2, None, 0x7d);
            if let Some(e) = expr_close(b, i + 2, None, 0x7d) {
                lemma_tags_in(b, e);
            }
        } else if b[i] == 0x7b && i + 1 < b.len() && b[i + 1] == 0x25 {
            lemma_expr_close(b, i + 2, None, 0x25);
            if let Some(e) = expr_close(b, i + 2, None, 0x25) {
                lemma_tags_in(b, e);
                if let Some(rest) = tags_from(b, e) {
                    let tags = seq![tag_over(b, i, e)] + rest;
                    assert forall|k: int| 0 <= k < tags.len() implies tag_in(b, #[trigger] tags[k])
                        && tags[k].open >= i by {
                        if k > 0 {
                            assert(tags[k] == rest[k - 1]);
                        }
                    }
                    assert forall|j: int, k: int| 0 <= j < k < tags.len() implies #[trigger] tags[j].close
                        <= #[trigger] tags[k].open by {
                        assert(tags[k] == rest[k - 1]);
                        if j > 0 {
                            assert(tags[j] == rest[j - 1]);
                        }
                    }
                }
            }
        } else {
            lemma_tags_in(b, i + 1);
        }
    }
}

/// `block` lies in a text with the bytes `b`, from the `{%` of its opening
/// tag through the `%}` of its closing tag.
pub open spec fn block_in(b: Seq<u8>, block: Block) -> bool {
    &&& block.open + 8 <= block.close <= b.len()
    &&& b[block.open as int] == 0x7b && b[block.open + 1] == 0x25
    &&& closer_at(b, block.close - 2, 0x25)
}

/// `first` ends before `second` begins, or lies strictly within it.
pub open spec fn before_or_inside(first: Block, second: Block) -> bool {
    first.close <= second.open || (second.open < first.open && first.close < second.close)
}

spec fn pairing_placed(b: Seq<u8>, p: Pairing, end: int) -> bool {
    &&& forall|k: int| 0 <= k < p.stack.len() ==> opener_placed(b, #[trigger] p.stack[k], end)
    &&& forall|j: int, k: int|
        0 <= j < k < p.stack.len() ==> (#[trigger] p.stack[j]).open < (#[trigger] p.stack[k]).open
    &&& forall|k: int|
        0 <= k < p.blocks.len() ==> block_in(b, #[trigger] p.blocks[k]) && p.blocks[k].close <= end
    &&& forall|j: int, k: int|
        0 <= j < k < p.blocks.len() ==> before_or_inside(
            #[trigger] p.blocks[j],
            #[trigger] p.blocks[k],
        )
    &&& forall|j: int, k: int|
        0 <= j < p.blocks.len() && 0 <= k < p.stack.len() ==> ((#[trigger] p.blocks[j]).close <= (
        #[trigger] p.stack[k]).open || p.stack[k].open < p.blocks[j].open)
}

spec fn opener_placed(b: Seq<u8>, o: Opener, end: int) -> bool {
    &&& o.open + 4 <= end <= b.len()
    &&& b[o.open as int] == 0x7b && b[o.open + 1] == 0x25
}

spec fn tags_end(tags: Seq<BlockTag>) -> int {
    if tags.len() == 0 {
        0
    } else {
        tags.last().close as int
    }
}

proof fn lemma_pairing_placed(b: Seq<u8>, tags: Seq<BlockTag>)
    requires
        tags_in(b, tags),
    ensures
        pair(tags) matches Some(p) ==> pairing_placed(b, p, tags_end(tags)),
    decreases tags.len(),
{
    if tags.len() > 0 {
        let head = tags.drop_last();
        assert(tags_in(b, head));
        lemma_pairing_placed(b, head);
        let tag = tags.last();
        assert(tag_in(b, tag));
        let end = tags_end(head);
        assert(end <= tag.open) by {
            if head.len() > 0 {
                assert(tags[head.len() - 1].close <= tags[tags.len() - 1].open);
            }
        }
        if let Some(p) = pair(head) {
            if let Some(q) = pair_step(p, tag) {
                assert(pairing_placed(b, p, end));
                assert forall|k: int| 0 <= k < q.stack.len() implies opener_placed(
                    b,
                    #[trigger] q.stack[k],
                    tag.close as int,
                ) by {
                    if k < p.stack.len() {
                        assert(q.stack[k] == p.stack[k]);
                        assert(opener_placed(b, p.stack[k], end));
                    }
                }
                assert forall|j: int, k: int| 0 <= j < k < q.stack.len() implies (#[trigger] q.stack[j]).open
                    < (#[trigger] q.stack[k]).open by {
                    assert(opener_placed(b, p.stack[j], end));
                    if k < p.stack.len() {
                        assert(q.stack[k] == p.stack[k]);
                        assert(q.stack[j] == p.stack[j]);
                    }
                }
                assert forall|k: int| 0 <= k < q.blocks.len() implies block_in(
                    b,
                    #[trigger] q.blocks[k],
                ) && q.blocks[k].close <= tag.close by {
                    if k < p.blocks.len() {
                        assert(q.blocks[k] == p.blocks[k]);
                        assert(block_in(b, p.blocks[k]));
                    } else {
                        assert(opener_placed(b, p.stack[p.stack.len() - 1], end));
                    }
                }
                assert forall|j: int, k: int| 0 <= j < k < q.blocks.len() implies before_or_inside(
                    #[trigger] q.blocks[j],
                    #[trigger] q.blocks[k],
                ) by {
                    assert(q.blocks[j] == p.blocks[j]);
                    if k < p.blocks.len() {
                        assert(q.blocks[k] == p.blocks[k]);
                        assert(before_or_inside(p.blocks[j], p.blocks[k]));
                    } else {
                        let o = p.stack[p.stack.len() - 1];
                        assert(p.blocks[j].close <= end);
                        assert(p.blocks[j].close <= o.open || o.open < p.blocks[j].open);
                    }
                }
                assert forall|j: int, k: int|
                    0 <= j < q.blocks.len() && 0 <= k < q.stack.len() implies ((
                #[trigger] q.blocks[j]).close <= (#[trigger] q.stack[k]).open || q.stack[k].open
                    < q.blocks[j].open) by {
                    if j < p.blocks.len() {
                        assert(q.blocks[j] == p.blocks[j]);
                        assert(p.blocks[j].close <= end);
                        if k < p.stack.len() {
                            assert(q.stack[k] == p.stack[k]);
                        }
                    } else {
                        assert(q.stack[k] == p.stack[k]);
                        assert(p.stack[k].open < p.stack[p.stack.len() - 1].open);
                    }
                }
            }
        }
    }
}

/// Law: every block of a text lies within the text and runs from the `{%` of
/// its opening tag through the `%}` of its closing tag; of two blocks, the
/// one that closes first ends before the other begins or lies strictly within
/// it.
pub proof fn law_blocks_nest(b: Seq<u8>)
    requires
        b.len() <= usize::MAX,
    ensures
        text_blocks(b) matches Some(blocks) ==> {
            &&& forall|k: int| 0 <= k < blocks.len() ==> block_in(b, #[trigger] blocks[k])
            &&& forall|j: int, k: int|
                0 <= j < k < blocks.len() ==> before_or_inside(
                    #[trigger] blocks[j],
                    #[trigger] blocks[k],
                )
        },
{
    lemma_tags_in(b, 0);
    if let Some(tags) = tags_from(b, 0) {
        lemma_pairing_placed(b, tags);
    }
}

proof fn lemma_zone_of_block(b: Seq<u8>, blocks: Seq<Block>, k: int)
    requires
        0 <= k < zone_facts(b, blocks).len(),
    ensures
        exists|j: int|
            0 <= j < blocks.len() && (#[trigger] blocks[j]).kind.zone() == Some(
                zone_facts(b, blocks)[k].kind,
            ) && zone_facts(b, blocks)[k].raw_span == span_at(
                b,
                blocks[j].open as int,
                blocks[j].close as int,
            ) && zone_facts(b, blocks)[k].block_id == blocks[j].id,
    decreases blocks.len(),
{
    let head = zone_facts(b, blocks.drop_last());
    if k < head.len() {
        lemma_zone_of_block(b, blocks.drop_last(), k);
        let j = choose|j: int|
            0 <= j < blocks.drop_last().len() && (#[trigger] blocks.drop_last()[j]).kind.zone()
                == Some(head[k].kind) && head[k].raw_span == span_at(
                b,
                blocks.drop_last()[j].open as int,
                blocks.drop_last()[j].close as int,
            ) && head[k].block_id == blocks.drop_last()[j].id;
        assert(blocks[j] == blocks.drop_last()[j]);
    } else {
        assert(blocks[blocks.len() - 1] == blocks.last());
    }
}

/// Law: every zone of a text of at most `u32::MAX` bytes covers at least one
/// byte and lies within the text.
pub proof fn law_zones_in_bounds(b: Seq<u8>)
    requires
        b.len() <= u32::MAX,
    ensures
        forall|k: int|
            0 <= k < text_zones(b).len() ==> (#[trigger] text_zones(b)[k]).raw_span.start.byte
                < text_zones(b)[k].raw_span.end.byte && text_zones(b)[k].raw_span.end.byte
                <= b.len(),
{
    law_blocks_nest(b);
    if let Some(blocks) = text_blocks(b) {
        assert forall|k: int| 0 <= k < text_zones(b).len() implies (#[trigger] text_zones(
            b,
        )[k]).raw_span.start.byte < text_zones(b)[k].raw_span.end.byte && text_zones(
            b,
        )[k].raw_span.end.byte <= b.len() by {
            lemma_zone_of_block(b, blocks, k);
            let j = choose|j: int|
                0 <= j < blocks.len() && (#[trigger] blocks[j]).kind.zone() == Some(
                    zone_facts(b, blocks)[k].kind,
                ) && zone_facts(b, blocks)[k].raw_span == span_at(
                    b,
                    blocks[j].open as int,
                    blocks[j].close as int,
                ) && zone_facts(b, blocks)[k].block_id == blocks[j].id;
            assert(block_in(b, blocks[j]));
        }
    }
}

/// The number of opening tags among `tags`.
pub open spec fn count_openers(tags: Seq<BlockTag>) -> nat
    decreases tags.len(),
{
    if tags.len() == 0 {
        0
    } else {
        count_openers(tags.drop_last()) + if tags.last().role is Start {
            1nat
        } else {
            0nat
        }
    }
}

/// The number of opening tags of a text.
pub open spec fn opening_tags(b: Seq<u8>) -> nat {
    match tags_from(b, 0) {
        Some(tags) => count_openers(tags),
        None => 0,
    }
}

/// How many numbers there are for opening tags.
pub const TAG_NUMBERS: u64 = 0x1_0000_0000;

spec fn numbers_fresh(p: Pairing, n: nat) -> bool {
    &&& p.next == if n < TAG_NUMBERS {
        n
    } else {
        0
    }
    &&& forall|k: int| 0 <= k < p.stack.len() ==> (#[trigger] p.stack[k]).id < n
    &&& forall|k: int| 0 <= k < p.blocks.len() ==> (#[trigger] p.blocks[k]).id < n
    &&& forall|j: int, k: int|
        0 <= j < k < p.stack.len() ==> (#[trigger] p.stack[j]).id != (#[trigger] p.stack[k]).id
    &&& forall|j: int, k: int|
        0 <= j < k < p.blocks.len() ==> (#[trigger] p.blocks[j]).id != (#[trigger] p.blocks[k]).id
    &&& forall|j: int, k: int|
        0 <= j < p.blocks.len() && 0 <= k < p.stack.len() ==> (#[trigger] p.blocks[j]).id != (
        #[trigger] p.stack[k]).id
}

proof fn lemma_numbers_fresh(tags: Seq<BlockTag>)
    requires
        count_openers(tags) <= TAG_NUMBERS,
    ensures
        pair(tags) matches Some(p) ==> numbers_fresh(p, count_openers(tags)),
    decreases tags.len(),
{
    if tags.len() > 0 {
        let head = tags.drop_last();
        let tag = tags.last();
        lemma_numbers_fresh(head);
        if let Some(p) = pair(head) {
            if let Some(q) = pair_step(p, tag) {
                let n = count_openers(tags);
                assert(numbers_fresh(p, count_openers(head)));
                assert(numbers_fresh(q, n));
            }
        }
    }
}

proof fn lemma_few_tags(b: Seq<u8>, tags: Seq<BlockTag>)
    requires
        tags_in(b, tags),
    ensures
        4 * tags.len() <= tags_end(tags) <= b.len(),
        count_openers(tags) <= tags.len(),
    decreases tags.len(),
{
    if tags.len() > 0 {
        let head = tags.drop_last();
        assert(tags_in(b, head));
        lemma_few_tags(b, head);
        assert(tag_in(b, tags[tags.len() - 1]));
        if head.len() > 0 {
            assert(tags[head.len() - 1].close <= tags[tags.len() - 1].open);
        }
    }
}

proof fn lemma_zone_numbers(b: Seq<u8>, blocks: Seq<Block>)
    requires
        forall|j: int, k: int|
            0 <= j < k < blocks.len() ==> (#[trigger] blocks[j]).id != (#[trigger] blocks[k]).id,
    ensures
        forall|j: int, k: int|
            0 <= j < k < zone_facts(b, blocks).len() ==> (#[trigger] zone_facts(
                b,
                blocks,
            )[j]).block_id != (#[trigger] zone_facts(b, blocks)[k]).block_id,
    decreases blocks.len(),
{
    if blocks.len() > 0 {
        let d = blocks.drop_last();
        let head = zone_facts(b, d);
        let all = zone_facts(b, blocks);
        assert forall|j: int, k: int| 0 <= j < k < d.len() implies (#[trigger] d[j]).id != (
        #[trigger] d[k]).id by {
            assert(blocks[j].id != blocks[k].id);
        }
        lemma_zone_numbers(b, d);
        assert forall|j: int, k: int| 0 <= j < k < all.len() implies (#[trigger] all[j]).block_id
            != (#[trigger] all[k]).block_id by {
            assert(all[j] == head[j]);
            if k < head.len() {
                assert(all[k] == head[k]);
                assert(head[j].block_id != head[k].block_id);
            } else {
                lemma_zone_of_block(b, d, j);
                let x = choose|x: int|
                    0 <= x < d.len() && (#[trigger] d[x]).kind.zone() == Some(head[j].kind)
                        && head[j].raw_span == span_at(b, d[x].open as int, d[x].close as int)
                        && head[j].block_id == d[x].id;
                assert(blocks[x] == d[x]);
                assert(blocks[x].id != blocks[blocks.len() - 1].id);
            }
        }
    }
}

/// Law: no two zones of a text have the same number, as long as the text does
/// not have more opening tags than there are numbers for them, which no text
/// of at most `u32::MAX` bytes has.
pub proof fn law_zone_numbers_differ(b: Seq<u8>)
    requires
        b.len() <= u32::MAX || opening_tags(b) <= TAG_NUMBERS,
    ensures
        forall|j: int, k: int|
            0 <= j < text_zones(b).len() && 0 <= k < text_zones(b).len() && j != k ==> (
            #[trigger] text_zones(b)[j]).block_id != (#[trigger] text_zones(b)[k]).block_id,
{
    if let Some(tags) = tags_from(b, 0) {
        if b.len() <= u32::MAX {
            lemma_tags_in(b, 0);
            lemma_few_tags(b, tags);
        }
        lemma_numbers_fresh(tags);
        if let Some(blocks) = text_blocks(b) {
            lemma_zone_numbers(b, blocks);
        }
    }
}

/// Law: a text whose block tags are not balanced, or that leaves a construct
/// unterminated, has no zones at all.
pub proof fn law_malformed_has_no_zones(b: Seq<u8>)
    requires
        text_blocks(b) is None,
    ensures
        text_zones(b).len() == 0,
{
}

// ---------------------------------------------------------------------
// Laws on tags
// ---------------------------------------------------------------------

/// Law: a condition calls `is_incremental` exactly where that name stands in
/// it somewhere with edges on both sides, an opening parenthesis behind it,
/// and outside string literals.
pub proof fn law_guard_call(b: Seq<u8>)
    ensures
        calls_guard(b) <==> exists|at: int|
            {
                &&& #[trigger] occurs(b, encode_utf8("is_incremental"@), at)
                &&& left_edge(b, at)
                &&& right_edge(b, at + encode_utf8("is_incremental"@).len())
                &&& paren_follows(b, at + encode_utf8("is_incremental"@).len())
                &&& quote_at(b, 0, None, at) is None
            },
{
    if calls_guard(b) {
        let at = choose|at: int| #[trigger] guard_call_at(b, at);
        assert(occurs(b, encode_utf8("is_incremental"@), at));
    }
    let name = encode_utf8("is_incremental"@);
    if exists|at: int|
        {
            &&& #[trigger] occurs(b, name, at)
            &&& left_edge(b, at)
            &&& right_edge(b, at + name.len())
            &&& paren_follows(b, at + name.len())
            &&& quote_at(b, 0, None, at) is None
        } {
        let at = choose|at: int|
            {
                &&& #[trigger] occurs(b, name, at)
                &&& left_edge(b, at)
                &&& right_edge(b, at + name.len())
                &&& paren_follows(b, at + name.len())
                &&& quote_at(b, 0, None, at) is None
            };
        assert(guard_call_at(b, at));
    }
}

/// One dash, or nothing.
pub open spec fn dash(present: bool) -> Seq<char> {
    if present {
        seq!['-']
    } else {
        Seq::empty()
    }
}

/// Law: the statement of a tag is what stands between the delimiters, the
/// dashes of white space control, if any, and the white space inside them.
pub proof fn law_tag_statement(
    before: bool,
    blank: Seq<char>,
    statement: Seq<char>,
    space: Seq<char>,
    behind: bool,
)
    requires
        forall|i: int| 0 <= i < blank.len() ==> is_white(#[trigger] blank[i]),
        forall|i: int| 0 <= i < space.len() ==> is_white(#[trigger] space[i]),
        statement.len() > 0,
        !is_white(statement[0]),
        !is_white(statement.last()),
        !before && blank.len() == 0 ==> statement[0] != '-',
        !behind ==> statement.last() != '-',
    ensures
        tag_statement(
            "{%"@ + dash(before) + blank + statement + space + dash(behind) + "%}"@,
        ) == statement,
{
    reveal_strlit("{%");
    reveal_strlit("%}");
    let tag = "{%"@ + dash(before) + blank + statement + space + dash(behind) + "%}"@;
    let end = space + dash(behind) + "%}"@;
    let opened = dash(before) + blank + statement + end;
    assert(tag.subrange(0, 2) == "{%"@);
    assert("{%"@.is_prefix_of(tag));
    assert(tag.skip(2) == opened);
    let rest = statement + end;
    assert(without_dash_before(opened) == blank + rest) by {
        if before {
            assert(opened.drop_first() == blank + rest);
        } else {
            assert(opened == blank + rest);
            if blank.len() > 0 {
                assert(is_white(blank[0]));
            }
        }
    }
    assert(rest[0] == statement[0]);
    lemma_strip_blank(blank, rest);
    let closed = statement + space + dash(behind);
    assert(rest.subrange(rest.len() - 2, rest.len() as int) == "%}"@);
    assert("%}"@.is_suffix_of(rest));
    assert(rest.take(rest.len() - 2) == closed);
    lemma_strip_blank_behind(statement, space);
    let none = Seq::<char>::empty();
    if behind {
        lemma_strip_blank_behind(closed, none);
        assert(closed + none == closed);
        assert(closed.drop_last() == statement + space);
    } else {
        assert(closed == statement + space);
        lemma_strip_blank_behind(statement, none);
        assert(statement + none == statement);
    }
}

/// Law: the first word of a tag decides what it does. `if` and `for` open a
/// block, `endif` and `endfor` close one, `else` and `elif` divide one; a tag
/// with any other first word takes no part. An `if` is an incremental guard
/// exactly where its statement calls `is_incremental`.
pub proof fn law_tag_role(
    before: bool,
    blank: Seq<char>,
    word: Seq<char>,
    tail: Seq<char>,
    space: Seq<char>,
    behind: bool,
)
    requires
        forall|i: int| 0 <= i < blank.len() ==> is_white(#[trigger] blank[i]),
        forall|i: int| 0 <= i < space.len() ==> is_white(#[trigger] space[i]),
        forall|i: int| 0 <= i < word.len() ==> !is_white(#[trigger] word[i]),
        word.len() > 0,
        tail.len() > 0 ==> is_white(tail[0]) && !is_white(tail.last()),
        !before && blank.len() == 0 ==> word[0] != '-',
        !behind ==> (word + tail).last() != '-',
    ensures
        ({
            let tag = "{%"@ + dash(before) + blank + (word + tail) + space + dash(behind) + "%}"@;
            let role = tag_role(tag);
            &&& word == "if"@ && calls_guard(encode_utf8(word + tail)) ==> role == (TagRole::Start {
                kind: BlockKind::IncrementalGuard,
            })
            &&& word == "if"@ && !calls_guard(encode_utf8(word + tail)) ==> role
                == (TagRole::Start { kind: BlockKind::PlainIf })
            &&& word == "for"@ ==> role == (TagRole::Start { kind: BlockKind::ForLoop })
            &&& word == "endif"@ ==> role == (TagRole::End { kind: EndKind::If })
            &&& word == "endfor"@ ==> role == (TagRole::End { kind: EndKind::For })
            &&& word == "else"@ || word == "elif"@ ==> role == TagRole::Mid
            &&& word != "if"@ && word != "for"@ && word != "endif"@ && word != "endfor"@ && word
                != "else"@ && word != "elif"@ ==> role == TagRole::Other
        }),
{
    let statement = word + tail;
    assert(!is_white(word[0]));
    assert(!is_white(word[word.len() - 1]));
    law_tag_statement(before, blank, statement, space, behind);
    let none = Seq::<char>::empty();
    law_first_word(none, word, tail);
    assert(none + word + tail == statement);
    reveal_strlit("if");
    reveal_strlit("for");
    reveal_strlit("endif");
    reveal_strlit("endfor");
    reveal_strlit("else");
    reveal_strlit("elif");
    assert("else"@[1] == 'l' && "elif"@[1] == 'l' && "endif"@[1] == 'n');
}

/// Law: a tag with nothing but white space inside its dashes takes no part.
pub proof fn law_blank_tag(before: bool, blank: Seq<char>, behind: bool)
    requires
        forall|i: int| 0 <= i < blank.len() ==> is_white(#[trigger] blank[i]),
    ensures
        tag_role("{%"@ + dash(before) + blank + dash(behind) + "%}"@) == TagRole::Other,
{
    reveal_strlit("{%");
    reveal_strlit("%}");
    reveal_strlit("if");
    reveal_strlit("for");
    reveal_strlit("endif");
    reveal_strlit("endfor");
    reveal_strlit("else");
    reveal_strlit("elif");
    let tag = "{%"@ + dash(before) + blank + dash(behind) + "%}"@;
    let none = Seq::<char>::empty();
    assert(tag.subrange(0, 2) == "{%"@);
    assert("{%"@.is_prefix_of(tag));
    let opened = tag.skip(2);
    assert(opened == dash(before) + blank + dash(behind) + "%}"@);
    let left = if !before && blank.len() == 0 {
        none
    } else {
        dash(behind)
    };
    let rest = left + "%}"@;
    assert(without_dash_before(opened) == blank + rest) by {
        if before {
            assert(opened.drop_first() == blank + rest);
        } else if blank.len() > 0 {
            assert(is_white(blank[0]));
            assert(opened[0] == blank[0]);
            assert(opened == blank + rest);
        } else if behind {
            assert(opened.drop_first() == blank + rest);
        } else {
            assert(opened == blank + rest);
        }
    }
    lemma_strip_blank(blank, rest);
    assert(rest.subrange(rest.len() - 2, rest.len() as int) == "%}"@);
    assert("%}"@.is_suffix_of(rest));
    assert(rest.take(rest.len() - 2) == left);
    lemma_strip_blank_behind(left, none);
    assert(left + none == left);
    assert(without_dash_behind(left) == none);
    assert(tag_statement(tag) == none);
}

/// Law: reading the tags of a text, a comment and a variable are passed whole,
/// a block tag is listed with its place and its role, and any other byte is
/// passed alone. Where a construct does not end, there are no tags to be had.
pub proof fn law_reading_tags(b: Seq<u8>, i: int, e: int)
    requires
        0 <= i < b.len(),
        i + 2 <= e <= b.len(),
    ensures
        tags_from(b, b.len() as int) == Some(Seq::<BlockTag>::empty()),
        b[i] != 123 || i + 1 >= b.len() || (b[i + 1] != 35 && b[i + 1] != 123 && b[i + 1] != 37)
            ==> tags_from(b, i) == tags_from(b, i + 1),
        i + 1 < b.len() && b[i] == 123 && b[i + 1] == 35 && plain_close(b, i + 2, 35) == Some(e)
            ==> tags_from(b, i) == tags_from(b, e),
        i + 1 < b.len() && b[i] == 123 && b[i + 1] == 35 && plain_close(b, i + 2, 35) is None
            ==> tags_from(b, i) is None,
        i + 1 < b.len() && b[i] == 123 && b[i + 1] == 123 && expr_close(b, i + 2, None, 125)
            == Some(e) ==> tags_from(b, i) == tags_from(b, e),
        i + 1 < b.len() && b[i] == 123 && b[i + 1] == 123 && expr_close(b, i + 2, None, 125) is None
            ==> tags_from(b, i) is None,
        i + 1 < b.len() && b[i] == 123 && b[i + 1] == 37 && expr_close(b, i + 2, None, 37) is None
            ==> tags_from(b, i) is None,
        i + 1 < b.len() && b[i] == 123 && b[i + 1] == 37 && expr_close(b, i + 2, None, 37) == Some(
            e,
        ) ==> match tags_from(b, e) {
            Some(rest) => tags_from(b, i) == Some(
                seq![
                    BlockTag {
                        open: i as usize,
                        close: e as usize,
                        role: tag_role(decode_utf8(b.subrange(i, e))),
                    },
                ] + rest,
            ),
            None => tags_from(b, i) is None,
        },
{
}

// ---------------------------------------------------------------------
// Laws on blocks and zones
// ---------------------------------------------------------------------

/// Law: a guard and a plain `if` are closed by `endif`, a loop by `endfor`; a
/// guard and a loop are zones, a plain `if` is none.
pub proof fn law_block_kinds()
    ensures
        BlockKind::IncrementalGuard.pairs(EndKind::If),
        BlockKind::PlainIf.pairs(EndKind::If),
        BlockKind::ForLoop.pairs(EndKind::For),
        !BlockKind::IncrementalGuard.pairs(EndKind::For),
        !BlockKind::PlainIf.pairs(EndKind::For),
        !BlockKind::ForLoop.pairs(EndKind::If),
        BlockKind::IncrementalGuard.zone() == Some(ZoneKind::IncrementalGuard),
        BlockKind::ForLoop.zone() == Some(ZoneKind::ForLoop),
        BlockKind::PlainIf.zone() is None,
        zone_tag(ZoneKind::IncrementalGuard) == 0,
        zone_tag(ZoneKind::ForLoop) == 1,
{
}

/// Law: how one tag more changes the pairing of a run of tags that pairs so
/// far. An opening tag is put on the stack under the next number; a closing
/// tag takes the innermost opener of its family off and makes a block of the
/// two; a dividing tag needs an open block; any other tag changes nothing.
/// Where a tag does not fit, or one before it did not, nothing pairs.
pub proof fn law_pairing(tags: Seq<BlockTag>, tag: BlockTag)
    ensures
        pair(Seq::empty()) == Some(Pairing { stack: Seq::empty(), next: 0, blocks: Seq::empty() }),
        pair(tags) is None ==> pair(tags.push(tag)) is None,
        pair(tags) matches Some(p) ==> {
            &&& tag.role is Other ==> pair(tags.push(tag)) == Some(p)
            &&& tag.role is Mid ==> pair(tags.push(tag)) == if p.stack.len() > 0 {
                Some(p)
            } else {
                None
            }
            &&& tag.role matches TagRole::Start { kind } ==> {
                let q = pair(tags.push(tag))->0;
                &&& pair(tags.push(tag)) is Some
                &&& q.stack == p.stack.push(Opener { kind, open: tag.open, id: p.next })
                &&& q.blocks == p.blocks
                &&& p.next < u32::MAX ==> q.next == p.next + 1
                &&& p.next == u32::MAX ==> q.next == 0
            }
            &&& tag.role matches TagRole::End { kind } ==> {
                let q = pair(tags.push(tag))->0;
                &&& pair(tags.push(tag)) is Some <==> p.stack.len() > 0
                    && p.stack.last().kind.pairs(kind)
                &&& pair(tags.push(tag)) is Some ==> {
                    &&& q.stack == p.stack.drop_last()
                    &&& q.next == p.next
                    &&& q.blocks == p.blocks.push(
                        Block {
                            kind: p.stack.last().kind,
                            open: p.stack.last().open,
                            close: tag.close,
                            id: p.stack.last().id,
                        },
                    )
                }
            }
        },
{
    assert(tags.push(tag).drop_last() == tags);
}

/// Law: a tag that takes no part can be put in or taken out anywhere without
/// a change to the blocks.
pub proof fn law_other_tags_ignored(a: Seq<BlockTag>, tag: BlockTag, c: Seq<BlockTag>)
    requires
        tag.role is Other,
    ensures
        pair(a + seq![tag] + c) == pair(a + c),
        balanced_blocks(a + seq![tag] + c) == balanced_blocks(a + c),
    decreases c.len(),
{
    if c.len() == 0 {
        assert(a + seq![tag] + c == a.push(tag));
        assert(a + c == a);
        assert(a.push(tag).drop_last() == a);
    } else {
        law_other_tags_ignored(a, tag, c.drop_last());
        assert((a + seq![tag] + c).drop_last() == a + seq![tag] + c.drop_last());
        assert((a + c).drop_last() == a + c.drop_last());
    }
}

spec fn opened_at(p: Pairing, kind: BlockKind, open: usize, id: int) -> bool {
    ||| exists|j: int|
        0 <= j < p.stack.len() && (#[trigger] p.stack[j]).kind == kind && p.stack[j].open == open
            && p.stack[j].id == id
    ||| exists|j: int|
        0 <= j < p.blocks.len() && (#[trigger] p.blocks[j]).kind == kind && p.blocks[j].open == open
            && p.blocks[j].id == id
}

proof fn lemma_openers_kept(tags: Seq<BlockTag>, k: int, kind: BlockKind)
    requires
        0 <= k < tags.len(),
        tags[k].role == (TagRole::Start { kind }),
        count_openers(tags) <= TAG_NUMBERS,
    ensures
        pair(tags) matches Some(p) ==> opened_at(
            p,
            kind,
            tags[k].open,
            count_openers(tags.take(k)) as int,
        ),
    decreases tags.len(),
{
    let head = tags.drop_last();
    let tag = tags.last();
    let id = count_openers(tags.take(k)) as int;
    lemma_numbers_fresh(head);
    if let Some(p) = pair(head) {
        if let Some(q) = pair_step(p, tag) {
            if k < head.len() {
                lemma_openers_kept(head, k, kind);
                assert(head.take(k) == tags.take(k));
                assert(opened_at(p, kind, tags[k].open, id));
                if exists|j: int|
                    0 <= j < p.stack.len() && (#[trigger] p.stack[j]).kind == kind
                        && p.stack[j].open == tags[k].open && p.stack[j].id == id {
                    let j = choose|j: int|
                        0 <= j < p.stack.len() && (#[trigger] p.stack[j]).kind == kind
                            && p.stack[j].open == tags[k].open && p.stack[j].id == id;
                    if j < q.stack.len() {
                        assert(q.stack[j] == p.stack[j]);
                    } else {
                        assert(q.blocks[q.blocks.len() - 1].open == tags[k].open);
                    }
                } else {
                    let j = choose|j: int|
                        0 <= j < p.blocks.len() && (#[trigger] p.blocks[j]).kind == kind
                            && p.blocks[j].open == tags[k].open && p.blocks[j].id == id;
                    assert(q.blocks[j] == p.blocks[j]);
                }
            } else {
                assert(tags.take(k) == head);
                assert(q.stack[q.stack.len() - 1].open == tags[k].open);
            }
        }
    }
}

proof fn lemma_block_count(tags: Seq<BlockTag>)
    ensures
        pair(tags) matches Some(p) ==> p.stack.len() + p.blocks.len() == count_openers(tags),
    decreases tags.len(),
{
    if tags.len() > 0 {
        lemma_block_count(tags.drop_last());
    }
}

/// `blocks` holds one that the opening tag at `k` begins, of its kind and under
/// the number of opening tags before it.
pub open spec fn begins_block(tags: Seq<BlockTag>, k: int, blocks: Seq<Block>) -> bool {
    exists|j: int|
        {
            &&& 0 <= j < blocks.len()
            &&& tags[k].role == (TagRole::Start { kind: (#[trigger] blocks[j]).kind })
            &&& blocks[j].open == tags[k].open
            &&& blocks[j].id == count_openers(tags.take(k))
        }
}

/// Law: in a balanced run of tags every opening tag begins a block of its kind,
/// under the number of opening tags before it, and there are no other blocks.
pub proof fn law_every_opener_closed(tags: Seq<BlockTag>, blocks: Seq<Block>)
    requires
        balanced_blocks(tags) == Some(blocks),
        count_openers(tags) <= TAG_NUMBERS,
    ensures
        blocks.len() == count_openers(tags),
        forall|k: int|
            0 <= k < tags.len() && (#[trigger] tags[k]).role is Start ==> begins_block(
                tags,
                k,
                blocks,
            ),
{
    lemma_block_count(tags);
    assert forall|k: int| 0 <= k < tags.len() && (#[trigger] tags[k]).role is Start implies
        begins_block(tags, k, blocks) by {
        let kind = tags[k].role->Start_kind;
        lemma_openers_kept(tags, k, kind);
        let p = pair(tags)->0;
        let id = count_openers(tags.take(k)) as int;
        assert(opened_at(p, kind, tags[k].open, id));
        assert(p.blocks == blocks);
        let j = choose|j: int|
            0 <= j < p.blocks.len() && (#[trigger] p.blocks[j]).kind == kind && p.blocks[j].open
                == tags[k].open && p.blocks[j].id == id;
        assert(tags[k].role == (TagRole::Start { kind: blocks[j].kind }));
    }
}

/// Law: the opening tags are counted one by one.
pub proof fn law_count_openers(tags: Seq<BlockTag>, tag: BlockTag)
    ensures
        count_openers(Seq::empty()) == 0,
        tag.role is Start ==> count_openers(tags.push(tag)) == count_openers(tags) + 1,
        !(tag.role is Start) ==> count_openers(tags.push(tag)) == count_openers(tags),
{
    assert(tags.push(tag).drop_last() == tags);
}

/// Law: the zones of a text are its blocks that are zones, in order, each with
/// the span from its opening through its closing tag and its number. A text
/// has blocks exactly where its tags can be read, pair, and leave none open.
pub proof fn law_zones_are_blocks(b: Seq<u8>, blocks: Seq<Block>, block: Block)
    ensures
        zone_facts(b, Seq::empty()) == Seq::<ZoneFact>::empty(),
        block.kind is PlainIf ==> zone_facts(b, blocks.push(block)) == zone_facts(b, blocks),
        block.kind is ForLoop ==> zone_facts(b, blocks.push(block)) == zone_facts(b, blocks).push(
            ZoneFact {
                kind: ZoneKind::ForLoop,
                raw_span: span_at(b, block.open as int, block.close as int),
                block_id: block.id,
            },
        ),
        block.kind is IncrementalGuard ==> zone_facts(b, blocks.push(block)) == zone_facts(
            b,
            blocks,
        ).push(
            ZoneFact {
                kind: ZoneKind::IncrementalGuard,
                raw_span: span_at(b, block.open as int, block.close as int),
                block_id: block.id,
            },
        ),
        text_blocks(b) == Some(blocks) ==> text_zones(b) == zone_facts(b, blocks),
        text_blocks(b) is None ==> text_zones(b) == Seq::<ZoneFact>::empty(),
        text_blocks(b) == Some(blocks) <==> tags_from(b, 0) is Some && pair(tags_from(b, 0)->0)
            is Some && pair(tags_from(b, 0)->0)->0.stack.len() == 0 && pair(
            tags_from(b, 0)->0,
        )->0.blocks == blocks,
{
    assert(blocks.push(block).drop_last() == blocks);
}

proof fn lemma_pair_filtered(tags: Seq<BlockTag>)
    ensures
        pair(tags) == pair(tags.filter(|t: BlockTag| !(t.role is Other))),
    decreases tags.len(),
{
    reveal(Seq::filter);
    if tags.len() > 0 {
        let p = |t: BlockTag| !(t.role is Other);
        let d = tags.drop_last();
        let t = tags.last();
        let kept = d.filter(p);
        lemma_pair_filtered(d);
        law_pairing(d, t);
        assert(tags == d.push(t));
        if p(t) {
            assert(tags.filter(p) == kept.push(t));
            assert(kept.push(t).drop_last() == kept);
        } else {
            assert(tags.filter(p) == kept);
        }
    }
}

/// Law: the blocks and the zones of a text are those of the tags that begin,
/// divide or end a block: every other tag, wherever it stands, neither adds a
/// zone nor takes one away.
pub proof fn law_zones_of_block_tags(b: Seq<u8>, tags: Seq<BlockTag>)
    requires
        tags_from(b, 0) == Some(tags),
    ensures
        ({
            let kept = tags.filter(
                |t: BlockTag| t.role is Start || t.role is Mid || t.role is End,
            );
            &&& text_blocks(b) == balanced_blocks(kept)
            &&& text_zones(b) == match balanced_blocks(kept) {
                Some(blocks) => zone_facts(b, blocks),
                None => Seq::empty(),
            }
        }),
{
    let p = |t: BlockTag| !(t.role is Other);
    let q = |t: BlockTag| t.role is Start || t.role is Mid || t.role is End;
    assert(p =~= q);
    lemma_pair_filtered(tags);
    assert(pair(tags) == pair(tags.filter(p)));
}

} // verus!
