//! Where a control zone landed in the compiled text: the literal fragments
//! of the zone, and the one that stands in the compiled text without
//! ambiguity.
use vstd::prelude::*;
use vstd::string::*;
use vstd::utf8::*;
use crate::order::{
    items, law_sorted, lemma_items_multiset, lemma_sorted_map, ranks, renamed, sort_ranked, sorted,
    Ranked,
};
use crate::scan::{find_bytes, find_close, first_from, lemma_first_from, occurs, plain_close};
use crate::span::{
    byte_span, get_slice, lemma_ascii_boundaries, lemma_occurrence_boundaries, lemma_text_bytes,
    slice, sliceable, span_at, SourceSpan,
};
use crate::text::{chars_of, is_white, trim, trimmed, white};

verus! {

// ---------------------------------------------------------------------
// Literal fragments
// ---------------------------------------------------------------------

/// A Jinja construct begins at `i`.
pub open spec fn construct_at(b: Seq<u8>, i: int) -> bool {
    &&& 0 <= i && i + 1 < b.len() && b[i] == 0x7b
    &&& b[i + 1] == 0x25 || b[i + 1] == 0x7b || b[i + 1] == 0x23
}

/// The byte that closes, with a `}`, a construct whose second byte is
/// `second`.
pub open spec fn closing_delim(second: u8) -> u8 {
    if second == 0x7b {
        0x7d
    } else {
        second
    }
}

/// The runs of a text that lie outside Jinja constructs, for a scan that
/// stands at `i` in a run that began at `start`. A construct that is not
/// terminated reaches to the end of the text.
pub open spec fn literal_runs(b: Seq<u8>, start: int, i: int) -> Seq<(int, int)>
    decreases b.len() - i,
{
    if i < 0 || i >= b.len() {
        seq![(start, b.len() as int)]
    } else if construct_at(b, i) {
        match plain_close(b, i + 2, closing_delim(b[i + 1])) {
            Some(e) => if i < e <= b.len() {
                seq![(start, i)] + literal_runs(b, e, e)
            } else {
                seq![(start, i)]
            },
            None => seq![(start, i)],
        }
    } else {
        literal_runs(b, start, i + 1)
    }
}

/// The text of a run, without white space at its ends.
pub open spec fn run_text(b: Seq<u8>, run: (int, int)) -> Seq<char> {
    trimmed(decode_utf8(b.subrange(run.0, run.1)))
}

/// The sort key by which longer texts come first, by their length in bytes.
pub open spec fn longer_first(s: Seq<char>) -> Seq<u64> {
    seq![(u64::MAX - encode_utf8(s).len()) as u64]
}

/// The texts of the runs that hold more than white space, with their keys.
pub open spec fn keyed_runs(b: Seq<u8>, runs: Seq<(int, int)>) -> Seq<(Seq<u64>, Seq<char>)>
    decreases runs.len(),
{
    if runs.len() == 0 {
        Seq::empty()
    } else {
        let head = keyed_runs(b, runs.drop_last());
        let text = run_text(b, runs.last());
        if text.len() == 0 {
            head
        } else {
            head.push((longer_first(text), text))
        }
    }
}

/// The literal fragments of a text, the longest first, fragments of the same
/// length in the order of the text.
pub open spec fn fragments(b: Seq<u8>) -> Seq<Seq<char>> {
    items(sorted(keyed_runs(b, literal_runs(b, 0, 0))))
}

/// The characters of each of a list of texts.
pub open spec fn str_views(v: Seq<&str>) -> Seq<Seq<char>> {
    Seq::new(v.len(), |i: int| v[i]@)
}

/// Adds the text of `body[start..end]` to `found`, unless it is white space
/// only.
fn push_run<'a>(body: &'a str, start: usize, end: usize, found: &mut Vec<Ranked<&'a str>>)
    requires
        sliceable(body.spec_bytes(), start as int, end as int),
        body.spec_bytes().len() <= usize::MAX,
    ensures
        ({
            let text = run_text(body.spec_bytes(), (start as int, end as int));
            renamed(ranks(final(found)@), |s: &str| s@) == if text.len() == 0 {
                renamed(ranks(old(found)@), |s: &str| s@)
            } else {
                renamed(ranks(old(found)@), |s: &str| s@).push((longer_first(text), text))
            }
        }),
{
    let frag: &'a str = trim(slice(body, start, end));
    if !frag.is_empty() {
        let n: usize = frag.as_bytes().len();
        let mut key: Vec<u64> = Vec::new();
        key.push(u64::MAX - n as u64);
        let ghost before = found@;
        assert(key@ == longer_first(frag@));
        found.push(Ranked { key, item: frag });
        assert(renamed(ranks(found@), |s: &str| s@) == renamed(ranks(before), |s: &str| s@).push(
            (longer_first(frag@), frag@),
        ));
    }
}

proof fn lemma_keyed_push(b: Seq<u8>, done: Seq<(int, int)>, run: (int, int))
    ensures
        keyed_runs(b, done.push(run)) == if run_text(b, run).len() == 0 {
            keyed_runs(b, done)
        } else {
            keyed_runs(b, done).push((longer_first(run_text(b, run)), run_text(b, run)))
        },
{
    assert(done.push(run).drop_last() == done);
}

/// The literal fragments of `body`: the runs outside `{% %}`, `{{ }}` and
/// `{# #}`, trimmed, without the empty ones, the longest first.
pub fn literal_fragments<'a>(body: &'a str) -> (r: Vec<&'a str>)
    ensures
        str_views(r@) == fragments(body.spec_bytes()),
{
    let bytes: &[u8] = body.as_bytes();
    let n: usize = bytes.len();
    let ghost b = bytes@;
    let ghost mut done: Seq<(int, int)> = Seq::empty();
    let mut found: Vec<Ranked<&'a str>> = Vec::new();
    let mut seg_start: usize = 0;
    let mut i: usize = 0;
    proof {
        lemma_text_bytes(body);
        is_char_boundary_start_end_of_seq(b);
        assert(done + literal_runs(b, 0, 0) == literal_runs(b, 0, 0));
        assert(renamed(ranks(found@), |s: &str| s@) == keyed_runs(b, done));
    }
    let mut ended: bool = false;
    while i < n
        invariant_except_break
            !ended,
            literal_runs(b, 0, 0) == done + literal_runs(b, seg_start as int, i as int),
        invariant
            n == bytes@.len(),
            b == bytes@,
            b == body.spec_bytes(),
            valid_utf8(b),
            seg_start <= i <= n,
            is_char_boundary(b, seg_start as int),
            is_char_boundary(b, n as int),
            renamed(ranks(found@), |s: &str| s@) == keyed_runs(b, done),
        ensures
            ended ==> literal_runs(b, 0, 0) == done,
            !ended ==> i >= n && literal_runs(b, 0, 0) == done + literal_runs(
                b,
                seg_start as int,
                i as int,
            ),
        decreases n - i,
    {
        if bytes[i] == 0x7b && i + 1 < n && (bytes[i + 1] == 0x25 || bytes[i + 1] == 0x7b
            || bytes[i + 1] == 0x23) {
            proof {
                lemma_ascii_boundaries(b, i as int);
                lemma_keyed_push(b, done, (seg_start as int, i as int));
            }
            push_run(body, seg_start, i, &mut found);
            let ghost before = done;
            proof {
                done = done.push((seg_start as int, i as int));
            }
            let delim: u8 = if bytes[i + 1] == 0x7b {
                0x7d
            } else {
                bytes[i + 1]
            };
            match find_close(bytes, i + 2, delim) {
                Some(after) => {
                    proof {
                        lemma_ascii_boundaries(b, after - 1);
                        let rest = literal_runs(b, after as int, after as int);
                        assert(before + (seq![(seg_start as int, i as int)] + rest) == done + rest);
                    }
                    i = after;
                    seg_start = after;
                },
                None => {
                    assert(before + seq![(seg_start as int, i as int)] == done);
                    ended = true;
                    break;
                },
            }
        } else {
            i += 1;
        }
    }
    if !ended {
        proof {
            lemma_keyed_push(b, done, (seg_start as int, n as int));
            assert(done + seq![(seg_start as int, n as int)] == done.push(
                (seg_start as int, n as int),
            ));
        }
        push_run(body, seg_start, n, &mut found);
    }
    let ghost keyed = ranks(found@);
    proof {
        lemma_sorted_map(keyed, |s: &str| s@);
    }
    let order: Vec<Ranked<&'a str>> = sort_ranked(found);
    let mut out: Vec<&'a str> = Vec::new();
    let mut k: usize = 0;
    while k < order.len()
        invariant
            k <= order@.len(),
            out@.len() == k,
            forall|j: int| 0 <= j < k ==> #[trigger] out@[j] == order@[j].item,
        decreases order@.len() - k,
    {
        out.push(order[k].item);
        k += 1;
    }
    proof {
        let named = renamed(ranks(order@), |s: &str| s@);
        assert(str_views(out@) == items(named));
    }
    out
}

/// The longest literal fragment of `body`; `None` where it has none.
pub fn longest_literal_fragment<'a>(body: &'a str) -> (r: Option<&'a str>)
    ensures
        match r {
            Some(s) => fragments(body.spec_bytes()).len() > 0 && s@ == fragments(
                body.spec_bytes(),
            )[0],
            None => fragments(body.spec_bytes()).len() == 0,
        },
{
    let all: Vec<&'a str> = literal_fragments(body);
    assert(str_views(all@).len() == all@.len());
    if all.len() == 0 {
        None
    } else {
        assert(str_views(all@)[0] == all@[0]@);
        Some(all[0])
    }
}

// ---------------------------------------------------------------------
// Binding a fragment
// ---------------------------------------------------------------------

/// The number of characters of `s` that are no white space.
pub open spec fn solid_count(s: Seq<char>) -> nat
    decreases s.len(),
{
    if s.len() == 0 {
        0
    } else {
        solid_count(s.drop_last()) + if is_white(s.last()) {
            0nat
        } else {
            1nat
        }
    }
}

/// Where `needle` stands in `b`, if it stands there exactly once.
pub open spec fn sole_place(b: Seq<u8>, needle: Seq<u8>) -> Option<int> {
    match first_from(b, needle, 0) {
        Some(at) => if first_from(b, needle, at + 1) is None {
            Some(at)
        } else {
            None
        },
        None => None,
    }
}

/// Where the fragment `f` binds in `b`: it holds at least three characters
/// that are no white space, and stands in `b` once.
pub open spec fn binding(b: Seq<u8>, f: Seq<char>) -> Option<int> {
    if solid_count(f) < 3 {
        None
    } else {
        sole_place(b, encode_utf8(f))
    }
}

/// The span in `b` of the first of `frags` that binds.
pub open spec fn first_binding(b: Seq<u8>, frags: Seq<Seq<char>>) -> Option<SourceSpan>
    decreases frags.len(),
{
    if frags.len() == 0 {
        None
    } else {
        match binding(b, frags[0]) {
            Some(at) => Some(span_at(b, at, at + encode_utf8(frags[0]).len())),
            None => first_binding(b, frags.drop_first()),
        }
    }
}

/// The span in the compiled text of the part `span` of a raw text.
pub open spec fn compiled_span(raw: Seq<u8>, span: SourceSpan, compiled: Seq<u8>) -> Option<
    SourceSpan,
> {
    if sliceable(raw, span.start.byte as int, span.end.byte as int) {
        first_binding(
            compiled,
            fragments(raw.subrange(span.start.byte as int, span.end.byte as int)),
        )
    } else {
        None
    }
}

/// Whether `s` holds at least three characters that are no white space.
fn is_solid(s: &str) -> (r: bool)
    ensures
        r == (solid_count(s@) >= 3),
{
    let v: Vec<char> = chars_of(s);
    let mut n: usize = 0;
    let mut i: usize = 0;
    assert(s@.take(0) == Seq::<char>::empty());
    while i < v.len()
        invariant
            i <= v@.len(),
            v@ == s@,
            n <= 3,
            n == if solid_count(s@.take(i as int)) < 3 {
                solid_count(s@.take(i as int))
            } else {
                3
            },
        decreases v@.len() - i,
    {
        assert(s@.take(i as int + 1).drop_last() == s@.take(i as int));
        if n < 3 && !white(v[i]) {
            n += 1;
        }
        i += 1;
    }
    assert(s@.take(i as int) == s@);
    n == 3
}

/// The span in `compiled` of the zone `raw_span` of `raw`: that of the
/// longest literal fragment of the zone that stands in `compiled` once.
/// `None` where no fragment does.
pub fn resolve_zone_compiled(raw: &str, raw_span: &SourceSpan, compiled: &str) -> (r: Option<
    SourceSpan,
>)
    ensures
        r == compiled_span(raw.spec_bytes(), *raw_span, compiled.spec_bytes()),
{
    let body: &str = match get_slice(
        raw,
        raw_span.start.byte as usize,
        raw_span.end.byte as usize,
    ) {
        Some(body) => body,
        None => {
            return None;
        },
    };
    let frags: Vec<&str> = literal_fragments(body);
    let hay: &[u8] = compiled.as_bytes();
    let hay_len: usize = hay.len();
    let ghost all = fragments(body.spec_bytes());
    let mut i: usize = 0;
    assert(all.skip(0) == all);
    while i < frags.len()
        invariant
            i <= frags@.len(),
            str_views(frags@) == all,
            hay@ == compiled.spec_bytes(),
            hay@.len() == hay_len,
            compiled_span(raw.spec_bytes(), *raw_span, hay@) == first_binding(hay@, all),
            first_binding(hay@, all) == first_binding(hay@, all.skip(i as int)),
        decreases frags@.len() - i,
    {
        let anchor: &str = frags[i];
        proof {
            assert(all[i as int] == anchor@);
            assert(all.skip(i as int)[0] == anchor@);
            assert(all.skip(i as int).drop_first() == all.skip(i as int + 1));
        }
        if is_solid(anchor) {
            let needle: &[u8] = anchor.as_bytes();
            proof {
                lemma_text_bytes(anchor);
                lemma_text_bytes(compiled);
                assert(needle@.len() > 0) by {
                    if needle@.len() == 0 {
                        assert(decode_utf8(needle@) == Seq::<char>::empty());
                    }
                }
            }
            if let Some(at) = find_bytes(hay, needle, 0) {
                if find_bytes(hay, needle, at + 1).is_none() {
                    proof {
                        lemma_first_from(hay@, needle@, 0);
                        lemma_occurrence_boundaries(hay@, needle@, at as int);
                        assert(binding(hay@, anchor@) == Some(at as int));
                    }
                    return byte_span(compiled, at, at + needle.len());
                }
            }
        }
        assert(binding(hay@, anchor@) is None);
        i += 1;
    }
    None
}

/// Law: a zone that is given a span in the compiled text is given that of one
/// of its own literal fragments, and that fragment stands there and nowhere
/// else.
pub proof fn law_bound_once(b: Seq<u8>, frags: Seq<Seq<char>>)
    ensures
        first_binding(b, frags) matches Some(span) ==> exists|k: int, at: int|
            {
                &&& 0 <= k < frags.len()
                &&& span == span_at(b, at, at + encode_utf8(frags[k]).len())
                &&& #[trigger] occurs(b, encode_utf8(frags[k]), at)
                &&& solid_count(frags[k]) >= 3
                &&& forall|j: int| j != at ==> !occurs(b, encode_utf8(frags[k]), j)
            },
    decreases frags.len(),
{
    if let Some(span) = first_binding(b, frags) {
        let needle = encode_utf8(frags[0]);
        match binding(b, frags[0]) {
            Some(at) => {
                lemma_first_from(b, needle, 0);
                lemma_first_from(b, needle, at + 1);
                assert(occurs(b, encode_utf8(frags[0]), at));
            },
            None => {
                let rest = frags.drop_first();
                law_bound_once(b, rest);
                let (k, at) = choose|k: int, at: int|
                    {
                        &&& 0 <= k < rest.len()
                        &&& span == span_at(b, at, at + encode_utf8(rest[k]).len())
                        &&& #[trigger] occurs(b, encode_utf8(rest[k]), at)
                        &&& solid_count(rest[k]) >= 3
                        &&& forall|j: int| j != at ==> !occurs(b, encode_utf8(rest[k]), j)
                    };
                assert(frags[k + 1] == rest[k]);
                assert(occurs(b, encode_utf8(frags[k + 1]), at));
            },
        }
    }
}

/// Law: where every literal fragment of a zone is too short, is missing from
/// the compiled text or stands there twice, the zone is given no span.
pub proof fn law_ambiguous_unbound(b: Seq<u8>, frags: Seq<Seq<char>>)
    requires
        forall|k: int| 0 <= k < frags.len() ==> binding(b, #[trigger] frags[k]) is None,
    ensures
        first_binding(b, frags) is None,
    decreases frags.len(),
{
    if frags.len() > 0 {
        assert(binding(b, frags[0]) is None);
        assert forall|k: int| 0 <= k < frags.drop_first().len() implies binding(
            b,
            #[trigger] frags.drop_first()[k],
        ) is None by {
            assert(frags.drop_first()[k] == frags[k + 1]);
        }
        law_ambiguous_unbound(b, frags.drop_first());
    }
}

// ---------------------------------------------------------------------
// Laws on fragments and their places
// ---------------------------------------------------------------------

/// Law: a text is cut into runs at its Jinja constructs. A `{%` runs to the
/// next `%}`, a `{{` to the next `}}` and a `{#` to the next `#}`; the run
/// before it ends there and the next begins behind. A construct that does not
/// end takes the rest of the text along.
pub proof fn law_literal_runs(b: Seq<u8>, start: int, i: int, e: int)
    requires
        0 <= i < b.len(),
        i + 2 <= e <= b.len(),
    ensures
        literal_runs(b, start, b.len() as int) == seq![(start, b.len() as int)],
        i + 1 == b.len() || b[i] != 123 || (b[i + 1] != 37 && b[i + 1] != 123 && b[i + 1] != 35)
            ==> literal_runs(b, start, i) == literal_runs(b, start, i + 1),
        i + 1 < b.len() && b[i] == 123 && b[i + 1] == 37 && plain_close(b, i + 2, 37) == Some(e)
            ==> literal_runs(b, start, i) == seq![(start, i)] + literal_runs(b, e, e),
        i + 1 < b.len() && b[i] == 123 && b[i + 1] == 123 && plain_close(b, i + 2, 125) == Some(e)
            ==> literal_runs(b, start, i) == seq![(start, i)] + literal_runs(b, e, e),
        i + 1 < b.len() && b[i] == 123 && b[i + 1] == 35 && plain_close(b, i + 2, 35) == Some(e)
            ==> literal_runs(b, start, i) == seq![(start, i)] + literal_runs(b, e, e),
        i + 1 < b.len() && b[i] == 123 && b[i + 1] == 37 && plain_close(b, i + 2, 37) is None
            ==> literal_runs(b, start, i) == seq![(start, i)],
        i + 1 < b.len() && b[i] == 123 && b[i + 1] == 123 && plain_close(b, i + 2, 125) is None
            ==> literal_runs(b, start, i) == seq![(start, i)],
        i + 1 < b.len() && b[i] == 123 && b[i + 1] == 35 && plain_close(b, i + 2, 35) is None
            ==> literal_runs(b, start, i) == seq![(start, i)],
{
}

proof fn lemma_keyed_members(b: Seq<u8>, runs: Seq<(int, int)>)
    ensures
        forall|f: Seq<char>| #[trigger]
            items(keyed_runs(b, runs)).contains(f) <==> f.len() > 0 && exists|k: int|
                0 <= k < runs.len() && f == trimmed(
                    decode_utf8(b.subrange((#[trigger] runs[k]).0, runs[k].1)),
                ),
        forall|k: int|
            0 <= k < keyed_runs(b, runs).len() ==> (#[trigger] keyed_runs(b, runs)[k]).0
                == longer_first(keyed_runs(b, runs)[k].1),
    decreases runs.len(),
{
    let all = keyed_runs(b, runs);
    if runs.len() > 0 {
        let d = runs.drop_last();
        let head = keyed_runs(b, d);
        lemma_keyed_members(b, d);
        let last = runs.last();
        let text = trimmed(decode_utf8(b.subrange(last.0, last.1)));
        assert forall|f: Seq<char>| #[trigger] items(all).contains(f) <==> f.len() > 0
            && exists|k: int|
            0 <= k < runs.len() && f == trimmed(
                decode_utf8(b.subrange((#[trigger] runs[k]).0, runs[k].1)),
            ) by {
            if items(all).contains(f) {
                let x = choose|x: int| 0 <= x < items(all).len() && items(all)[x] == f;
                if x < head.len() {
                    assert(items(head)[x] == f);
                    assert(items(head).contains(f));
                    let k = choose|k: int|
                        0 <= k < d.len() && f == trimmed(
                            decode_utf8(b.subrange((#[trigger] d[k]).0, d[k].1)),
                        );
                    assert(runs[k] == d[k]);
                } else {
                    assert(runs[runs.len() - 1] == last);
                }
            }
            if f.len() > 0 && exists|k: int|
                0 <= k < runs.len() && f == trimmed(
                    decode_utf8(b.subrange((#[trigger] runs[k]).0, runs[k].1)),
                ) {
                let k = choose|k: int|
                    0 <= k < runs.len() && f == trimmed(
                        decode_utf8(b.subrange((#[trigger] runs[k]).0, runs[k].1)),
                    );
                if k < d.len() {
                    assert(d[k] == runs[k]);
                    assert(items(head).contains(f));
                    let x = choose|x: int| 0 <= x < items(head).len() && items(head)[x] == f;
                    assert(items(all)[x] == f);
                } else {
                    assert(text == f);
                    assert(items(all)[head.len() as int] == f);
                }
            }
        }
        assert forall|k: int| 0 <= k < all.len() implies (#[trigger] all[k]).0 == longer_first(
            all[k].1,
        ) by {
            if k < head.len() {
                assert(all[k] == head[k]);
            }
        }
    }
}

/// Law: the fragments of a text are the trimmed texts of its runs that hold
/// more than white space, and nothing else; no fragment is followed by one
/// that is longer in bytes.
pub proof fn law_fragments(b: Seq<u8>)
    ensures
        forall|f: Seq<char>| #[trigger]
            fragments(b).contains(f) <==> f.len() > 0 && exists|k: int|
                0 <= k < literal_runs(b, 0, 0).len() && f == trimmed(
                    decode_utf8(
                        b.subrange(
                            (#[trigger] literal_runs(b, 0, 0)[k]).0,
                            literal_runs(b, 0, 0)[k].1,
                        ),
                    ),
                ),
        fragments(b).to_multiset() == items(keyed_runs(b, literal_runs(b, 0, 0))).to_multiset(),
        forall|i: int, j: int|
            0 <= i < j < fragments(b).len() && encode_utf8(#[trigger] fragments(b)[i]).len()
                <= u64::MAX && encode_utf8(#[trigger] fragments(b)[j]).len() <= u64::MAX
                ==> encode_utf8(fragments(b)[i]).len() >= encode_utf8(fragments(b)[j]).len(),
{
    let runs = literal_runs(b, 0, 0);
    let keyed = keyed_runs(b, runs);
    let r = sorted(keyed);
    let all = fragments(b);
    lemma_keyed_members(b, runs);
    law_sorted(keyed);
    lemma_items_multiset(keyed, r);
    all.to_multiset_ensures();
    items(keyed).to_multiset_ensures();
    assert forall|f: Seq<char>| #[trigger] all.contains(f) <==> items(keyed).contains(f) by {
        assert(all.contains(f) <==> all.to_multiset().contains(f));
        assert(items(keyed).contains(f) <==> items(keyed).to_multiset().contains(f));
    }
    assert forall|i: int, j: int|
        0 <= i < j < all.len() && encode_utf8(#[trigger] all[i]).len() <= u64::MAX && encode_utf8(
            #[trigger] all[j],
        ).len() <= u64::MAX implies encode_utf8(all[i]).len() >= encode_utf8(all[j]).len() by {
        r.to_multiset_ensures();
        keyed.to_multiset_ensures();
        assert(r.contains(r[i]) && r.contains(r[j]));
        assert(keyed.to_multiset().contains(r[i]) && keyed.to_multiset().contains(r[j]));
        let x = choose|x: int| 0 <= x < keyed.len() && keyed[x] == r[i];
        let y = choose|y: int| 0 <= y < keyed.len() && keyed[y] == r[j];
        assert(keyed[x].0 == longer_first(keyed[x].1));
        assert(keyed[y].0 == longer_first(keyed[y].1));
        assert(!crate::order::lex_lt(r[j].0, r[i].0));
    }
}

/// Law: white space does not count, any other character counts one.
pub proof fn law_solid_count(s: Seq<char>, c: char)
    ensures
        solid_count(Seq::empty()) == 0,
        is_white(c) ==> solid_count(s.push(c)) == solid_count(s),
        !is_white(c) ==> solid_count(s.push(c)) == solid_count(s) + 1,
{
    assert(s.push(c).drop_last() == s);
}

/// The fragment `f` stands in `b` at `at` and nowhere else, and holds at least
/// three characters that are no white space.
pub open spec fn sure_place(b: Seq<u8>, f: Seq<char>, at: int) -> bool {
    &&& solid_count(f) >= 3
    &&& occurs(b, encode_utf8(f), at)
    &&& forall|j: int| j != at ==> !occurs(b, encode_utf8(f), j)
}

proof fn lemma_sure_place(b: Seq<u8>, f: Seq<char>)
    ensures
        forall|at: int| #[trigger] sure_place(b, f, at) ==> binding(b, f) == Some(at),
        (forall|at: int| !#[trigger] sure_place(b, f, at)) ==> binding(b, f) is None,
{
    let needle = encode_utf8(f);
    lemma_first_from(b, needle, 0);
    if let Some(x) = first_from(b, needle, 0) {
        lemma_first_from(b, needle, x + 1);
        if binding(b, f) is Some {
            assert(sure_place(b, f, x));
        }
    }
    assert forall|at: int| #[trigger] sure_place(b, f, at) implies binding(b, f) == Some(at) by {
        assert(occurs(b, needle, at));
        if let Some(x) = first_from(b, needle, 0) {
            assert(occurs(b, needle, x));
            assert(x == at);
            if let Some(y) = first_from(b, needle, x + 1) {
                assert(occurs(b, needle, y));
            }
        }
    }
}

/// Law: a zone is given the span of the first of its fragments that stands in
/// the compiled text at one place only and is not too short; wherever there is
/// such a fragment it is given one, and else none.
pub proof fn law_first_sure_fragment(b: Seq<u8>, frags: Seq<Seq<char>>, k: int, at: int)
    requires
        0 <= k < frags.len(),
        sure_place(b, frags[k], at),
        forall|i: int, x: int| 0 <= i < k ==> !#[trigger] sure_place(b, frags[i], x),
    ensures
        first_binding(b, frags) == Some(span_at(b, at, at + encode_utf8(frags[k]).len())),
    decreases k,
{
    lemma_sure_place(b, frags[0]);
    if k > 0 {
        assert forall|x: int| !#[trigger] sure_place(b, frags[0], x) by {
            assert(!sure_place(b, frags[0], x));
        }
        let rest = frags.drop_first();
        assert(rest[k - 1] == frags[k]);
        assert forall|i: int, x: int| 0 <= i < k - 1 implies !#[trigger] sure_place(b, rest[i], x) by {
            assert(rest[i] == frags[i + 1]);
            assert(!sure_place(b, frags[i + 1], x));
        }
        law_first_sure_fragment(b, rest, k - 1, at);
    } else {
        assert(sure_place(b, frags[0], at));
    }
}

/// Law: where no fragment of a zone stands in the compiled text at one place
/// only, or those that do are too short, the zone is given no span.
pub proof fn law_no_sure_fragment(b: Seq<u8>, frags: Seq<Seq<char>>)
    requires
        forall|i: int, x: int| 0 <= i < frags.len() ==> !#[trigger] sure_place(b, frags[i], x),
    ensures
        first_binding(b, frags) is None,
    decreases frags.len(),
{
    if frags.len() > 0 {
        lemma_sure_place(b, frags[0]);
        assert forall|x: int| !#[trigger] sure_place(b, frags[0], x) by {
            assert(!sure_place(b, frags[0], x));
        }
        let rest = frags.drop_first();
        assert forall|i: int, x: int| 0 <= i < rest.len() implies !#[trigger] sure_place(b, rest[i], x) by {
            assert(rest[i] == frags[i + 1]);
            assert(!sure_place(b, frags[i + 1], x));
        }
        law_no_sure_fragment(b, rest);
    }
}

/// Law: a zone of a raw text is placed by the fragments of its own part of
/// that text; a span that is no range of the raw text is not placed.
pub proof fn law_zone_placed(raw: Seq<u8>, span: SourceSpan, compiled: Seq<u8>, k: int, at: int)
    ensures
        ({
            let body = raw.subrange(span.start.byte as int, span.end.byte as int);
            let frags = fragments(body);
            &&& !sliceable(raw, span.start.byte as int, span.end.byte as int) ==> compiled_span(
                raw,
                span,
                compiled,
            ) is None
            &&& sliceable(raw, span.start.byte as int, span.end.byte as int) && 0 <= k
                < frags.len() && sure_place(compiled, frags[k], at) && (forall|i: int, x: int|
                0 <= i < k ==> !#[trigger] sure_place(compiled, frags[i], x)) ==> compiled_span(
                raw,
                span,
                compiled,
            ) == Some(span_at(compiled, at, at + encode_utf8(frags[k]).len()))
            &&& (forall|i: int, x: int|
                0 <= i < frags.len() ==> !#[trigger] sure_place(compiled, frags[i], x))
                ==> compiled_span(raw, span, compiled) is None
        }),
{
    let frags = fragments(raw.subrange(span.start.byte as int, span.end.byte as int));
    if 0 <= k < frags.len() && sure_place(compiled, frags[k], at) && (forall|i: int, x: int|
        0 <= i < k ==> !#[trigger] sure_place(compiled, frags[i], x)) {
        law_first_sure_fragment(compiled, frags, k, at);
    }
    if forall|i: int, x: int|
        0 <= i < frags.len() ==> !#[trigger] sure_place(compiled, frags[i], x) {
        law_no_sure_fragment(compiled, frags);
    }
}

/// Law: a run more adds its trimmed text behind the others, unless that is
/// empty. The fragments are these texts sorted by length in bytes alone, the
/// longest first, so that texts of the same length keep their order.
pub proof fn law_runs_in_order(b: Seq<u8>, runs: Seq<(int, int)>, from: int, to: int)
    ensures
        keyed_runs(b, Seq::empty()).len() == 0,
        ({
            let text = trimmed(decode_utf8(b.subrange(from, to)));
            keyed_runs(b, runs.push((from, to))) == if text.len() == 0 {
                keyed_runs(b, runs)
            } else {
                keyed_runs(b, runs).push(
                    (seq![(0xffff_ffff_ffff_ffff - encode_utf8(text).len()) as u64], text),
                )
            }
        }),
        fragments(b) == items(sorted(keyed_runs(b, literal_runs(b, 0, 0)))),
{
    assert(runs.push((from, to)).drop_last() == runs);
}

} // verus!
