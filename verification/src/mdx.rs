//! MDX support.
//!
//! comrak knows nothing about MDX. markdown-rs does have an MDX parser but is
//! not built for round-tripping, so it is used for exactly one thing: telling
//! us the byte spans of the MDX constructs. Those spans are swapped for
//! placeholders that comrak carries through untouched, comrak formats the
//! Markdown around them, and the author's bytes are pasted back.
//!
//! MDX interiors are frozen. `<Callout>**bold**</Callout>` keeps whatever the
//! author wrote inside it, because the interior of a JSX element is the
//! component's business, and reformatting it can change what the component
//! receives.

use markdown::mdast::Node as N;
use markdown::{ParseOptions, to_mdast};
use vstd::prelude::*;
use vstd::string::*;
use vstd::utf8::*;

use crate::format::holds_byte;
use crate::table::sat_sub;
use crate::format::{commonmark, commonmark_spec, has_byte, Settings, SettingsView};
use crate::text::{
    is_blank, join, lemma_occurs_end_boundary, lemma_occurs_boundary, lemma_find_from, matches_at, owned, same,
    skip_ws, split, split_lines, find_bytes, find_from, replace_all, replace_spec,
    lemma_boundary_local, lemma_boundary_after_scalar, slice,
    contains_bytes, decimal, lemma_decimal_digits, lemma_decimal_injective, lemma_pigeonhole, occurs,
    occurs_at, push_ascii, push_char, push_decimal, push_str,
};

verus! {

broadcast use vstd::utf8::group_utf8_lib;

/// A node of the MDX syntax tree, met in a depth-first walk (each node
/// before its children, children in order): its kind, as a code (1 for an
/// `import`/`export` block, 2 for a JSX element and 3 for an expression that
/// stand alone between blank lines, 4 for a JSX element and 5 for an
/// expression inside a paragraph, 0 for anything that is not MDX), its byte
/// span if it has one, and how many children it has.
#[derive(Clone, Copy)]
pub struct MdxNode(pub u8, pub Option<(usize, usize)>, pub usize);

pub open spec fn mdx_nodes_view(r: Result<Vec<MdxNode>, String>) -> Result<Seq<MdxNode>, Seq<char>> {
    match r {
        Ok(v) => Ok(v@),
        Err(e) => Err(e@),
    }
}

/// The depth-first walk over the tree markdown-rs parses `input` into as
/// MDX; or the text of the message it rejects `input` with.
pub uninterp spec fn mdx_tree(input: Seq<char>) -> Result<Seq<MdxNode>, Seq<char>>;

/// markdown-rs's `to_mdast` with `ParseOptions::mdx()`, its tree walked
/// depth first, each node converted to an `MdxNode` (its variant told apart,
/// its `position` taken as start and end offsets, its children counted). The
/// contract claims only that the outcome is a function of the input.
#[verifier::external_body]
fn parse_mdx(input: &str) -> (r: Result<Vec<MdxNode>, String>)
    ensures
        mdx_nodes_view(r) == mdx_tree(input@),
{
    let root = to_mdast(input, &ParseOptions::mdx()).map_err(|e| e.to_string())?;
    let (mut out, mut stack) = (Vec::new(), vec![&root]);
    while let Some(n) = stack.pop() {
        out.push(MdxNode(
            match n { N::MdxjsEsm(_) => 1, N::MdxJsxFlowElement(_) => 2, N::MdxFlowExpression(_) => 3, N::MdxJsxTextElement(_) => 4, N::MdxTextExpression(_) => 5, _ => 0 },
            n.position().map(|p| (p.start.offset, p.end.offset)),
            n.children().map_or(0, Vec::len),
        ));
        stack.extend(n.children().into_iter().flatten().rev());
    }
    Ok(out)
}

/// Byte span of an MDX construct. `flow` marks block-level constructs, which
/// stand alone between blank lines; the others sit inside a paragraph.
#[derive(Clone, Copy)]
pub struct Span {
    pub start: usize,
    pub end: usize,
    pub flow: bool,
}

/// Whether nodes of this kind are MDX, and if so whether they are
/// block-level.
pub open spec fn flow_of(kind: u8) -> Option<bool> {
    if 1 <= kind <= 3 {
        Some(true)
    } else if 4 <= kind <= 5 {
        Some(false)
    } else {
        None
    }
}

/// Where the walk stands after `nodes`: the spans of the MDX nodes met so
/// far that lie inside no other MDX node, and how many subtrees of the MDX
/// node it is in, if any, are still to be passed over; or `Err` once an MDX
/// node without a source position has been met.
pub open spec fn collect_state(nodes: Seq<MdxNode>) -> Result<(Seq<Span>, nat), ()>
    decreases nodes.len(),
{
    if nodes.len() == 0 {
        Ok((seq![], 0))
    } else {
        match collect_state(nodes.drop_last()) {
            Err(()) => Err(()),
            Ok((spans, skip)) => {
                let n = nodes.last();
                if skip > 0 {
                    if skip - 1 + n.2 > usize::MAX {
                        Err(())
                    } else {
                        Ok((spans, (skip - 1 + n.2) as nat))
                    }
                } else {
                    match flow_of(n.0) {
                        None => Ok((spans, 0)),
                        Some(flow) => match n.1 {
                            None => Err(()),
                            Some((s, e)) => Ok((spans.push(Span { start: s, end: e, flow }), n.2 as nat)),
                        },
                    }
                }
            },
        }
    }
}

/// The spans of the MDX nodes of the walk that lie inside no other MDX
/// node, in the order they are met: the whole construct, children included,
/// is one opaque blob.
pub open spec fn spans_spec(nodes: Seq<MdxNode>) -> Result<Seq<Span>, ()> {
    match collect_state(nodes) {
        Err(()) => Err(()),
        Ok((s, _)) => Ok(s),
    }
}

proof fn lemma_collect_err(nodes: Seq<MdxNode>, k: int)
    requires
        0 <= k <= nodes.len(),
        collect_state(nodes.subrange(0, k)) is Err,
    ensures
        collect_state(nodes) is Err,
    decreases nodes.len() - k,
{
    if k < nodes.len() {
        assert(nodes.subrange(0, k + 1).drop_last() =~= nodes.subrange(0, k));
        lemma_collect_err(nodes, k + 1);
    } else {
        assert(nodes.subrange(0, k) =~= nodes);
    }
}

/// Walk the tree recording MDX nodes. Does not descend into them: the whole
/// construct, children included, is one opaque blob. `None` when an MDX
/// node has no source position.
pub fn collect(nodes: &Vec<MdxNode>) -> (r: Option<Vec<Span>>)
    ensures
        match r {
            None => spans_spec(nodes@) is Err,
            Some(s) => spans_spec(nodes@) == Ok::<Seq<Span>, ()>(s@),
        },
{
    let mut spans: Vec<Span> = Vec::new();
    let mut skip: usize = 0;
    let mut i: usize = 0;
    assert(nodes@.subrange(0, 0) =~= Seq::<MdxNode>::empty());
    while i < nodes.len()
        invariant
            i <= nodes@.len(),
            collect_state(nodes@.subrange(0, i as int)) == Ok::<(Seq<Span>, nat), ()>((spans@, skip as nat)),
        decreases nodes@.len() - i,
    {
        assert(nodes@.subrange(0, i + 1).drop_last() =~= nodes@.subrange(0, i as int));
        assert(nodes@.subrange(0, i + 1).last() == nodes@[i as int]);
        let n = nodes[i];
        if skip > 0 {
            skip = skip - 1;
            if skip > usize::MAX - n.2 {
                proof {
                    lemma_collect_err(nodes@, i + 1);
                }
                return None;
            }
            skip = skip + n.2;
        } else {
            let flow = if 1 <= n.0 && n.0 <= 3 {
                Some(true)
            } else if 4 <= n.0 && n.0 <= 5 {
                Some(false)
            } else {
                None
            };
            match flow {
                None => {},
                Some(flow) => match n.1 {
                    None => {
                        proof {
                            lemma_collect_err(nodes@, i + 1);
                        }
                        return None;
                    },
                    Some((s, e)) => {
                        spans.push(Span { start: s, end: e, flow });
                        skip = n.2;
                    },
                },
            }
        }
        i = i + 1;
    }
    assert(nodes@.subrange(0, nodes@.len() as int) =~= nodes@);
    Some(spans)
}

/// Whether a span was made from a node of the walk: an MDX node (kinds 1 to
/// 5) with that position, the span block-level exactly when the node is an
/// `import`/`export` block, a JSX element or an expression that stands
/// alone (kinds 1 to 3), and inline for a JSX element or an expression
/// inside a paragraph (kinds 4 and 5).
pub open spec fn span_from(nodes: Seq<MdxNode>, sp: Span) -> bool {
    exists|k: int|
        0 <= k < nodes.len() && #[trigger] nodes[k].1 == Some((sp.start, sp.end)) && 1 <= nodes[k].0 <= 5 && sp.flow
            == (nodes[k].0 <= 3)
}

proof fn lemma_state_spans(nodes: Seq<MdxNode>)
    ensures
        match collect_state(nodes) {
            Ok((sp, _)) => forall|i: int| 0 <= i < sp.len() ==> span_from(nodes, #[trigger] sp[i]),
            Err(()) => true,
        },
    decreases nodes.len(),
{
    if nodes.len() > 0 {
        let init = nodes.drop_last();
        lemma_state_spans(init);
        if let Ok((sp, _)) = collect_state(nodes) {
            let n = nodes.last();
            assert forall|i: int| 0 <= i < sp.len() implies span_from(nodes, #[trigger] sp[i]) by {
                if let Ok((sp0, _)) = collect_state(init) {
                    if i < sp0.len() {
                        assert(sp[i] == sp0[i]);
                        assert(span_from(init, sp0[i]));
                        let k = choose|k: int|
                            0 <= k < init.len() && #[trigger] init[k].1 == Some((sp0[i].start, sp0[i].end)) && 1 <= init[k].0 <= 5
                                && sp0[i].flow == (init[k].0 <= 3);
                        assert(nodes[k] == init[k]);
                    } else {
                        assert(nodes[nodes.len() - 1] == n);
                    }
                }
            }
        }
    }
}

/// Every span collected was made from an MDX node of the walk with that
/// position, and is block-level exactly when that node is one of the
/// block-level kinds: an inline JSX element or expression is never given
/// the HTML-comment placeholder, which would open an HTML block in the
/// middle of its paragraph.
pub proof fn lemma_collected_spans(nodes: Seq<MdxNode>)
    ensures
        match spans_spec(nodes) {
            Ok(sp) => forall|i: int| 0 <= i < sp.len() ==> span_from(nodes, #[trigger] sp[i]),
            Err(()) => true,
        },
{
    lemma_state_spans(nodes);
}

proof fn lemma_flat_state(nodes: Seq<MdxNode>)
    requires
        forall|k: int| 0 <= k < nodes.len() ==> (#[trigger] nodes[k]).2 == 0,
    ensures
        match collect_state(nodes) {
            Ok((_, skip)) => skip == 0,
            Err(()) => true,
        },
    decreases nodes.len(),
{
    if nodes.len() > 0 {
        let init = nodes.drop_last();
        assert forall|k: int| 0 <= k < init.len() implies (#[trigger] init[k]).2 == 0 by {
            assert(init[k] == nodes[k]);
        }
        lemma_flat_state(init);
        assert(nodes.last() == nodes[nodes.len() - 1]);
    }
}

/// The span an MDX node with a position makes: its position, block-level
/// for kinds 1 to 3 and inline otherwise.
pub open spec fn leaf_span(n: MdxNode) -> Span {
    match n.1 {
        Some((s, e)) => Span { start: s, end: e, flow: n.0 <= 3 },
        None => Span { start: 0, end: 0, flow: false },
    }
}

/// In a walk where no node has children, each node adds its own span: an
/// MDX node with a position adds one, block-level for kinds 1 to 3 and
/// inline for kinds 4 and 5; an MDX node without one is an error; any
/// other node adds nothing.
pub proof fn lemma_collect_flat(nodes: Seq<MdxNode>, n: MdxNode)
    requires
        forall|k: int| 0 <= k < nodes.len() ==> (#[trigger] nodes[k]).2 == 0,
        n.2 == 0,
    ensures
        (1 <= n.0 <= 5 && n.1 is Some) ==> spans_spec(nodes.push(n)) == match spans_spec(nodes) {
            Ok(sp) => Ok(sp.push(leaf_span(n))),
            Err(()) => Err(()),
        },
        (1 <= n.0 <= 5 && n.1 is None) ==> spans_spec(nodes.push(n)) is Err,
        (n.0 == 0 || n.0 > 5) ==> spans_spec(nodes.push(n)) == spans_spec(nodes),
{
    lemma_flat_state(nodes);
    assert(nodes.push(n).drop_last() =~= nodes);
    assert(nodes.push(n).last() == n);
}

/// `sorted` with `x` put after every span that starts no later than it,
/// walking back from the end: one step of a stable sort by start.
pub open spec fn insert_by_start(sorted: Seq<Span>, x: Span) -> Seq<Span>
    decreases sorted.len(),
{
    if sorted.len() == 0 || sorted.last().start <= x.start {
        sorted.push(x)
    } else {
        insert_by_start(sorted.drop_last(), x).push(sorted.last())
    }
}

/// `spans` sorted by start, spans that start together kept in their order:
/// what `sort_by_key` makes of them.
pub open spec fn sort_spans(spans: Seq<Span>) -> Seq<Span>
    decreases spans.len(),
{
    if spans.len() == 0 {
        seq![]
    } else {
        insert_by_start(sort_spans(spans.drop_last()), spans.last())
    }
}

proof fn lemma_insert_at(v: Seq<Span>, x: Span, j: int)
    requires
        0 <= j <= v.len(),
        forall|k: int| j <= k < v.len() ==> v[k].start > x.start,
        j == 0 || v[j - 1].start <= x.start,
    ensures
        insert_by_start(v, x) == v.subrange(0, j).push(x) + v.subrange(j, v.len() as int),
    decreases v.len(),
{
    if j == v.len() {
        assert(v.subrange(0, j).push(x) + v.subrange(j, v.len() as int) =~= v.push(x));
    } else {
        lemma_insert_at(v.drop_last(), x, j);
        assert(v.drop_last().subrange(0, j).push(x) + v.drop_last().subrange(j, v.len() - 1)
            =~= v.subrange(0, j).push(x) + v.subrange(j, v.len() - 1));
        assert((v.subrange(0, j).push(x) + v.subrange(j, v.len() - 1)).push(v.last())
            =~= v.subrange(0, j).push(x) + v.subrange(j, v.len() as int));
    }
}

fn insert_span(v: Vec<Span>, x: Span) -> (r: Vec<Span>)
    ensures
        r@ == insert_by_start(v@, x),
{
    let mut j = v.len();
    while j > 0 && v[j - 1].start > x.start
        invariant
            j <= v@.len(),
            forall|k: int| j <= k < v@.len() ==> v@[k].start > x.start,
        decreases j,
    {
        j = j - 1;
    }
    proof {
        lemma_insert_at(v@, x, j as int);
    }
    let mut r: Vec<Span> = Vec::new();
    let mut k: usize = 0;
    while k < j
        invariant
            j <= v@.len(),
            k <= j,
            r@ == v@.subrange(0, k as int),
        decreases j - k,
    {
        r.push(v[k]);
        k = k + 1;
        assert(r@ =~= v@.subrange(0, k as int));
    }
    r.push(x);
    let mut k = j;
    while k < v.len()
        invariant
            j <= k <= v@.len(),
            r@ == v@.subrange(0, j as int).push(x) + v@.subrange(j as int, k as int),
        decreases v@.len() - k,
    {
        r.push(v[k]);
        k = k + 1;
        assert(r@ =~= v@.subrange(0, j as int).push(x) + v@.subrange(j as int, k as int));
    }
    r
}

/// `spans` sorted by start, as `sort_by_key` sorts them.
pub fn sort_by_start(spans: &Vec<Span>) -> (r: Vec<Span>)
    ensures
        r@ == sort_spans(spans@),
{
    let mut r: Vec<Span> = Vec::new();
    let mut i: usize = 0;
    assert(spans@.subrange(0, 0) =~= Seq::<Span>::empty());
    while i < spans.len()
        invariant
            i <= spans@.len(),
            r@ == sort_spans(spans@.subrange(0, i as int)),
        decreases spans@.len() - i,
    {
        assert(spans@.subrange(0, i + 1).drop_last() =~= spans@.subrange(0, i as int));
        r = insert_span(r, spans[i]);
        i = i + 1;
    }
    assert(spans@.subrange(0, spans@.len() as int) =~= spans@);
    r
}


/// The flow placeholder's opening: `<!--mdfmt`.
pub open spec fn MARK_OPEN() -> Seq<u8> {
    seq![0x3cu8, 0x21, 0x2d, 0x2d, 0x6d, 0x64, 0x66, 0x6d, 0x74]
}

/// The flow placeholder's closing: `-->`.
pub open spec fn MARK_CLOSE() -> Seq<u8> {
    seq![0x2du8, 0x2d, 0x3e]
}

/// What a document must not contain for `n` to be the nonce: `<!--mdfmt`,
/// the number, and a colon.
pub open spec fn nonce_pattern(n: nat) -> Seq<u8> {
    MARK_OPEN() + decimal(n) + seq![0x3au8]
}

/// The private-use character `d` (0 or 1) of the `k`-th pair, counting pairs
/// up from U+E000.
pub open spec fn pair_char(k: int, d: int) -> char {
    ((0xe000 + 2 * k + d) as u32) as char
}

pub open spec fn char_bytes(c: char) -> Seq<u8> {
    encode_utf8(seq![c])
}

/// Whether neither character of the `k`-th pair occurs in `b`.
pub open spec fn pair_free(b: Seq<u8>, k: int) -> bool {
    !occurs(b, char_bytes(pair_char(k, 0))) && !occurs(b, char_bytes(pair_char(k, 1)))
}

/// How many pairs there are from U+E000 up to U+10FFFF.
pub open spec fn PAIRS() -> int {
    0x81000
}

/// Whether some pair of characters from U+E000 up is missing from `b`. A
/// document without one has no inline placeholder to use; markdown of that
/// kind would hold more than half a million distinct characters.
pub open spec fn has_free_pair(b: Seq<u8>) -> bool {
    exists|k: int| 0 <= k < PAIRS() && pair_free(b, k)
}

/// The placeholder shapes for a document. Flow placeholders are HTML
/// comments carrying the nonce; inline ones are delimited by the two
/// private-use characters.
#[derive(Clone, Copy)]
pub struct Marks {
    pub nonce: usize,
    pub open: char,
    pub close: char,
}

/// Marks that occur nowhere in `b`: the least nonce whose pattern does not
/// occur in it, and the first pair of characters from U+E000 up neither of
/// which does.
pub open spec fn marks_ok(b: Seq<u8>, m: Marks) -> bool {
    &&& !occurs(b, nonce_pattern(m.nonce as nat))
    &&& forall|n: nat| n < m.nonce ==> occurs(b, #[trigger] nonce_pattern(n))
    &&& exists|k: int|
        0 <= k < PAIRS() && pair_free(b, k) && (forall|j: int| 0 <= j < k ==> !#[trigger] pair_free(b, j))
            && m.open == pair_char(k, 0) && m.close == pair_char(k, 1)
}

/// The marks for the document `b`.
pub open spec fn marks_spec(b: Seq<u8>) -> Marks {
    choose|m: Marks| marks_ok(b, m)
}

proof fn lemma_marks_unique(b: Seq<u8>, m1: Marks, m2: Marks)
    requires
        marks_ok(b, m1),
        marks_ok(b, m2),
    ensures
        m1 == m2,
{
    if m1.nonce < m2.nonce {
        assert(occurs(b, nonce_pattern(m1.nonce as nat)));
    }
    if m2.nonce < m1.nonce {
        assert(occurs(b, nonce_pattern(m2.nonce as nat)));
    }
    let k1 = choose|k: int|
        0 <= k < PAIRS() && pair_free(b, k) && (forall|j: int| 0 <= j < k ==> !#[trigger] pair_free(b, j))
            && m1.open == pair_char(k, 0) && m1.close == pair_char(k, 1);
    let k2 = choose|k: int|
        0 <= k < PAIRS() && pair_free(b, k) && (forall|j: int| 0 <= j < k ==> !#[trigger] pair_free(b, j))
            && m2.open == pair_char(k, 0) && m2.close == pair_char(k, 1);
    if k1 < k2 {
        assert(!pair_free(b, k1));
    }
    if k2 < k1 {
        assert(!pair_free(b, k2));
    }
}

/// A nonce pattern occurring at a place fixes the nonce.
proof fn lemma_nonce_at(b: Seq<u8>, i: nat, j: nat, p: int)
    requires
        occurs_at(b, nonce_pattern(i), p),
        occurs_at(b, nonce_pattern(j), p),
    ensures
        i == j,
{
    lemma_decimal_digits(i);
    lemma_decimal_digits(j);
    let li = decimal(i).len() as int;
    let lj = decimal(j).len() as int;
    let pi = nonce_pattern(i);
    let pj = nonce_pattern(j);
    assert(pi[9 + li] == 0x3a);
    assert(pj[9 + lj] == 0x3a);
    if li < lj {
        assert(b[p + 9 + li] == pi[9 + li]);
        assert(b[p + 9 + li] == pj[9 + li]);
        assert(pj[9 + li] == decimal(j)[li]);
    } else if lj < li {
        assert(b[p + 9 + lj] == pj[9 + lj]);
        assert(b[p + 9 + lj] == pi[9 + lj]);
        assert(pi[9 + lj] == decimal(i)[lj]);
    } else {
        assert forall|k: int| 0 <= k < li implies decimal(i)[k] == decimal(j)[k] by {
            assert(b[p + 9 + k] == pi[9 + k]);
            assert(b[p + 9 + k] == pj[9 + k]);
        }
        assert(decimal(i) =~= decimal(j));
        lemma_decimal_injective(i, j);
    }
}

/// A document holds the patterns of at most as many nonces as it has bytes.
proof fn lemma_nonce_bound(b: Seq<u8>, n: int)
    requires
        0 <= n,
        forall|k: int| 0 <= k < n ==> occurs(b, #[trigger] nonce_pattern(k as nat)),
    ensures
        n <= b.len(),
{
    let f = |k: int| choose|p: int| #[trigger] occurs_at(b, nonce_pattern(k as nat), p);
    assert forall|k: int| 0 <= k < n implies 0 <= #[trigger] f(k) < b.len() by {
        assert(occurs(b, nonce_pattern(k as nat)));
    }
    assert forall|i: int, j: int| 0 <= i < n && 0 <= j < n && #[trigger] f(i) == #[trigger] f(j) implies i == j by {
        assert(occurs(b, nonce_pattern(i as nat)));
        assert(occurs(b, nonce_pattern(j as nat)));
        lemma_nonce_at(b, i as nat, j as nat, f(i));
    }
    lemma_pigeonhole(n, b.len() as int, f);
}

/// `<!--mdfmt`, the nonce, and a colon.
fn nonce_text(n: usize) -> (s: String)
    ensures
        encode_utf8(s@) == nonce_pattern(n as nat),
{
    let mut s = String::new();
    assert(encode_utf8(s@) =~= Seq::<u8>::empty());
    push_ascii(&mut s, '<');
    push_ascii(&mut s, '!');
    push_ascii(&mut s, '-');
    push_ascii(&mut s, '-');
    push_ascii(&mut s, 'm');
    push_ascii(&mut s, 'd');
    push_ascii(&mut s, 'f');
    push_ascii(&mut s, 'm');
    push_ascii(&mut s, 't');
    assert(encode_utf8(s@) =~= MARK_OPEN());
    push_decimal(&mut s, n);
    push_ascii(&mut s, ':');
    assert(encode_utf8(s@) =~= nonce_pattern(n as nat));
    s
}

/// `char::from_u32`, for a code that is a Unicode scalar value.
#[verifier::external_body]
fn char_from(code: u32) -> (c: char)
    requires
        0xe000 <= code <= 0x10ffff,
    ensures
        c as u32 == code,
{
    char::from_u32(code).unwrap()
}

/// The encoding of `c`.
fn char_text(c: char) -> (s: String)
    ensures
        encode_utf8(s@) == char_bytes(c),
{
    let mut s = String::new();
    assert(encode_utf8(s@) =~= Seq::<u8>::empty());
    push_char(&mut s, c);
    assert(encode_utf8(s@) =~= char_bytes(c));
    s
}

impl Marks {
    /// Marks that occur nowhere in `input`: the first nonce whose pattern
    /// is absent, and the first pair of private-use characters (walking the
    /// private use area in pairs, and on past it) of which neither occurs.
    pub fn for_input(input: &str) -> (m: Marks)
        requires
            has_free_pair(input.spec_bytes()),
        ensures
            m == marks_spec(input.spec_bytes()),
            marks_ok(input.spec_bytes(), m),
    {
        let b = input.as_bytes();
        let ghost bs = input.spec_bytes();
        let len = b.len();
        let mut nonce: usize = 0;
        loop
            invariant
                b@ == bs,
                len == bs.len(),
                nonce <= bs.len(),
                forall|n: nat| n < nonce ==> occurs(bs, #[trigger] nonce_pattern(n)),
            ensures
                forall|n: nat| n < nonce ==> occurs(bs, #[trigger] nonce_pattern(n)),
                !occurs(bs, nonce_pattern(nonce as nat)),
            decreases bs.len() - nonce,
        {
            let pattern = nonce_text(nonce);
            if !contains_bytes(b, pattern.as_str().as_bytes()) {
                break;
            }
            proof {
                assert forall|k: int| 0 <= k < nonce + 1 implies occurs(bs, #[trigger] nonce_pattern(k as nat)) by {
                    if k < nonce {
                        assert(occurs(bs, nonce_pattern(k as nat)));
                    }
                }
                lemma_nonce_bound(bs, nonce + 1);
            }
            nonce = nonce + 1;
        }
        let ghost k0 = choose|k: int| 0 <= k < PAIRS() && pair_free(bs, k);
        let mut k: u32 = 0;
        loop
            invariant
                b@ == bs,
                bs == input.spec_bytes(),
                forall|n: nat| n < nonce ==> occurs(bs, #[trigger] nonce_pattern(n)),
                !occurs(bs, nonce_pattern(nonce as nat)),
                0 <= k0 < PAIRS(),
                pair_free(bs, k0),
                k <= k0,
                forall|j: int| 0 <= j < k ==> !#[trigger] pair_free(bs, j),
            decreases k0 - k,
        {
            let open = char_from(0xe000 + 2 * k);
            let close = char_from(0xe001 + 2 * k);
            assert(open == pair_char(k as int, 0));
            assert(close == pair_char(k as int, 1));
            let ot = char_text(open);
            let ct = char_text(close);
            if !contains_bytes(b, ot.as_str().as_bytes()) && !contains_bytes(b, ct.as_str().as_bytes()) {
                let m = Marks { nonce, open, close };
                assert(marks_ok(bs, m));
                proof {
                    lemma_marks_unique(bs, m, marks_spec(bs));
                }
                return m;
            }
            k = k + 1;
        }
    }
}


pub open spec fn NL() -> u8 {
    0x0a
}

/// Padding for inline placeholders. An inert ASCII letter, so that one
/// character of padding costs comrak's line-width accounting exactly one
/// byte.
pub open spec fn FILL() -> u8 {
    0x6d
}

/// The flow placeholder for the `i`-th span: an HTML comment, which comrak
/// parses as an HTML block and reproduces verbatim at the right indentation.
pub open spec fn flow_spec(m: Marks, i: nat) -> Seq<u8> {
    MARK_OPEN() + decimal(m.nonce as nat) + seq![0x3au8] + decimal(i) + MARK_CLOSE()
}

/// The bare inline placeholder for the `i`-th span: a token between the two
/// private-use characters, which comrak takes for ordinary text.
pub open spec fn token_spec(m: Marks, i: nat) -> Seq<u8> {
    char_bytes(m.open) + decimal(m.nonce as nat) + seq![0x3au8] + decimal(i) + char_bytes(m.close)
}

/// The inline placeholder padded out to `width` bytes, so comrak wraps the
/// paragraph where it would have wrapped with the real text in place.
pub open spec fn inline_spec(m: Marks, i: nat, width: int) -> Seq<u8> {
    let t = token_spec(m, i);
    t + Seq::new(sat_sub(width, t.len() as int) as nat, |k: int| FILL())
}

/// The placeholder for the `i`-th span, whose text is `blob`: a flow one for
/// a block-level span; an inline one padded to the blob's length otherwise,
/// unpadded when the blob spans several lines.
pub open spec fn placeholder_spec(m: Marks, i: nat, span: Span, blob: Seq<u8>) -> Seq<u8> {
    if span.flow {
        flow_spec(m, i)
    } else if holds_byte(blob, NL()) {
        inline_spec(m, i, 0)
    } else {
        inline_spec(m, i, blob.len() as int)
    }
}

impl Marks {
    pub fn flow(&self, index: usize) -> (s: String)
        ensures
            encode_utf8(s@) == flow_spec(*self, index as nat),
    {
        let mut s = nonce_text(self.nonce);
        push_decimal(&mut s, index);
        push_ascii(&mut s, '-');
        push_ascii(&mut s, '-');
        push_ascii(&mut s, '>');
        assert(encode_utf8(s@) =~= flow_spec(*self, index as nat));
        s
    }

    /// An inline placeholder, padded out to the byte length of the blob it
    /// stands in for. comrak measures its columns in bytes, so that is the
    /// unit here too.
    pub fn inline(&self, index: usize, width: usize) -> (s: String)
        ensures
            encode_utf8(s@) == inline_spec(*self, index as nat, width as int),
    {
        let mut s = String::new();
        assert(encode_utf8(s@) =~= Seq::<u8>::empty());
        push_char(&mut s, self.open);
        push_decimal(&mut s, self.nonce);
        push_ascii(&mut s, ':');
        push_decimal(&mut s, index);
        push_char(&mut s, self.close);
        let ghost t = token_spec(*self, index as nat);
        assert(encode_utf8(s@) =~= t);
        let len = s.as_str().as_bytes().len();
        let padding = if width >= len { width - len } else { 0 };
        let mut k: usize = 0;
        assert(encode_utf8(s@) =~= t + Seq::new(0, |j: int| FILL()));
        while k < padding
            invariant
                k <= padding,
                encode_utf8(s@) == t + Seq::new(k as nat, |j: int| FILL()),
            decreases padding - k,
        {
            push_ascii(&mut s, 'm');
            k = k + 1;
            assert(encode_utf8(s@) =~= t + Seq::new(k as nat, |j: int| FILL()));
        }
        s
    }

    pub fn placeholder(&self, index: usize, span: &Span, blob: &str) -> (s: String)
        ensures
            encode_utf8(s@) == placeholder_spec(*self, index as nat, *span, blob.spec_bytes()),
    {
        if span.flow {
            self.flow(index)
        } else {
            let b = blob.as_bytes();
            let mut j: usize = 0;
            while j < b.len()
                invariant
                    j <= b@.len(),
                    b@ == blob.spec_bytes(),
                    !span.flow,
                    forall|k: int| 0 <= k < j ==> b@[k] != NL(),
                decreases b@.len() - j,
            {
                if b[j] == 0x0a {
                    assert(holds_byte(blob.spec_bytes(), NL())) by {
                        assert(b@[j as int] == NL());
                    }
                    return self.inline(index, 0);
                }
                j = j + 1;
            }
            self.inline(index, b.len())
        }
    }
}

/// An MDX construct held out of comrak's reach, plus the indentation it sat
/// at in the source. The indentation is needed to re-indent the blob when
/// comrak moves the placeholder: the blob's own continuation lines still
/// carry the old indentation, and pasting them under a new one without
/// stripping the old makes the blob creep further right on every run.
pub struct Blob<'a> {
    pub text: &'a str,
    pub indent: &'a str,
}

pub struct BlobView {
    pub text: Seq<u8>,
    pub indent: Seq<u8>,
}

impl<'a> View for Blob<'a> {
    type V = BlobView;

    open spec fn view(&self) -> BlobView {
        BlobView { text: self.text.spec_bytes(), indent: self.indent.spec_bytes() }
    }
}

/// Where the line holding byte `off` of `b` starts.
pub open spec fn line_start(b: Seq<u8>, off: int) -> int
    decreases off,
{
    if off <= 0 {
        0
    } else if b[off - 1] == NL() {
        off
    } else {
        line_start(b, off - 1)
    }
}

/// A space, a tab, or the `>` of a blockquote: what a line of the formatted
/// document is indented with.
pub open spec fn is_indent_byte(x: u8) -> bool {
    x == 0x20 || x == 0x09 || x == 0x3e
}

/// A space or a tab.
pub open spec fn is_space_or_tab(x: u8) -> bool {
    x == 0x20 || x == 0x09
}

/// The whitespace between the start of `off`'s line and `off`, or nothing
/// when anything else precedes it on that line.
pub open spec fn source_indent_spec(b: Seq<u8>, off: int) -> Seq<u8> {
    let p = b.subrange(line_start(b, off), off);
    if forall|i: int| 0 <= i < p.len() ==> is_space_or_tab(#[trigger] p[i]) {
        p
    } else {
        Seq::<u8>::empty()
    }
}

pub proof fn lemma_line_start(b: Seq<u8>, off: int)
    requires
        0 <= off <= b.len(),
    ensures
        0 <= line_start(b, off) <= off,
        line_start(b, off) == 0 || b[line_start(b, off) - 1] == NL(),
        forall|i: int| line_start(b, off) <= i < off ==> b[i] != NL(),
    decreases off,
{
    if off > 0 && b[off - 1] != NL() {
        lemma_line_start(b, off - 1);
    }
}

/// The indentation in front of `offset`, a character boundary of `input`.
fn source_indent(input: &str, offset: usize) -> (r: &str)
    requires
        offset <= input.spec_bytes().len(),
        is_char_boundary(input.spec_bytes(), offset as int),
    ensures
        r.spec_bytes() == source_indent_spec(input.spec_bytes(), offset as int),
{
    let b = input.as_bytes();
    let ghost bs = input.spec_bytes();
    let mut s = offset;
    while s > 0 && b[s - 1] != 0x0a
        invariant
            s <= offset <= bs.len(),
            b@ == bs,
            line_start(bs, offset as int) == line_start(bs, s as int),
        decreases s,
    {
        s = s - 1;
    }
    proof {
        lemma_line_start(bs, offset as int);
        lemma_boundary_local(bs, s as int);
        if s > 0 {
            lemma_boundary_local(bs, (s - 1) as int);
            lemma_boundary_after_scalar(bs, (s - 1) as int);
        }
    }
    let mut j = s;
    let mut all = true;
    while j < offset
        invariant
            s <= j <= offset <= bs.len(),
            b@ == bs,
            all == (forall|i: int| s <= i < j ==> is_space_or_tab(#[trigger] bs[i])),
        decreases offset - j,
    {
        let x = b[j];
        if !(x == 0x20 || x == 0x09) {
            all = false;
        }
        j = j + 1;
    }
    let ghost p = bs.subrange(s as int, offset as int);
    assert(all == (forall|i: int| 0 <= i < p.len() ==> is_space_or_tab(#[trigger] p[i]))) by {
        if !all {
            let i = choose|i: int| s <= i < offset && !is_space_or_tab(#[trigger] bs[i]);
            assert(!is_space_or_tab(p[i - s]));
        }
    }
    if all {
        slice(input, s, offset)
    } else {
        let none = slice(input, 0, 0);
        proof {
            lemma_boundary_local(bs, 0);
        }
        assert(none.spec_bytes() =~= Seq::<u8>::empty());
        none
    }
}


/// Where the text before the `k`-th span starts: the end of the span before
/// it, or the start of the document.
pub open spec fn cursor_before(spans: Seq<Span>, k: int) -> int {
    if k <= 0 {
        0
    } else {
        spans[k - 1].end as int
    }
}

/// Whether `spans` lie in order within `b`, none overlapping the next, each
/// starting and ending on a character boundary: the spans a parser reports
/// for the constructs of a document.
pub open spec fn spans_ok(b: Seq<u8>, spans: Seq<Span>) -> bool {
    forall|k: int|
        0 <= k < spans.len() ==> {
            &&& cursor_before(spans, k) <= #[trigger] spans[k].start <= spans[k].end <= b.len()
            &&& is_char_boundary(b, spans[k].start as int)
            &&& is_char_boundary(b, spans[k].end as int)
        }
}

pub open spec fn blob_text(b: Seq<u8>, span: Span) -> Seq<u8> {
    b.subrange(span.start as int, span.end as int)
}

/// The document up to the end of the `k`-th span, every span replaced by
/// its placeholder.
pub open spec fn masked_upto(b: Seq<u8>, spans: Seq<Span>, m: Marks, k: int) -> Seq<u8>
    decreases k,
{
    if k <= 0 {
        Seq::<u8>::empty()
    } else {
        masked_upto(b, spans, m, k - 1) + b.subrange(cursor_before(spans, k - 1), spans[k - 1].start as int)
            + placeholder_spec(m, (k - 1) as nat, spans[k - 1], blob_text(b, spans[k - 1]))
    }
}

/// The document with every span replaced by its placeholder.
pub open spec fn mask_spec(b: Seq<u8>, spans: Seq<Span>, m: Marks) -> Seq<u8> {
    masked_upto(b, spans, m, spans.len() as int) + b.subrange(
        cursor_before(spans, spans.len() as int),
        b.len() as int,
    )
}

/// The blobs taken out of the document: each span's text, and the
/// indentation it sat at.
pub open spec fn blobs_spec(b: Seq<u8>, spans: Seq<Span>) -> Seq<BlobView> {
    Seq::new(
        spans.len(),
        |k: int|
            BlobView { text: blob_text(b, spans[k]), indent: source_indent_spec(b, spans[k].start as int) },
    )
}

/// Whether `spans` are spans a parser reports for `input`.
pub fn spans_valid(input: &str, spans: &Vec<Span>) -> (r: bool)
    ensures
        r == spans_ok(input.spec_bytes(), spans@),
{
    let n = input.as_bytes().len();
    let mut k: usize = 0;
    let mut cursor: usize = 0;
    while k < spans.len()
        invariant
            k <= spans@.len(),
            n == input.spec_bytes().len(),
            cursor == cursor_before(spans@, k as int),
            forall|j: int|
                0 <= j < k ==> {
                    &&& cursor_before(spans@, j) <= #[trigger] spans@[j].start <= spans@[j].end <= input.spec_bytes().len()
                    &&& is_char_boundary(input.spec_bytes(), spans@[j].start as int)
                    &&& is_char_boundary(input.spec_bytes(), spans@[j].end as int)
                },
        decreases spans@.len() - k,
    {
        let sp = spans[k];
        if !(cursor <= sp.start && sp.start <= sp.end && sp.end <= n && input.is_char_boundary(sp.start)
            && input.is_char_boundary(sp.end)) {
            assert(!({
                &&& cursor_before(spans@, k as int) <= spans@[k as int].start <= spans@[k as int].end <= input.spec_bytes().len()
                &&& is_char_boundary(input.spec_bytes(), spans@[k as int].start as int)
                &&& is_char_boundary(input.spec_bytes(), spans@[k as int].end as int)
            }));
            assert(!spans_ok(input.spec_bytes(), spans@));
            return false;
        }
        cursor = sp.end;
        k = k + 1;
    }
    true
}

/// Replace every span with its placeholder, returning the masked document
/// and the blobs that were taken out of it.
pub fn mask<'a>(input: &'a str, spans: &Vec<Span>, marks: &Marks) -> (r: (String, Vec<Blob<'a>>))
    requires
        spans_ok(input.spec_bytes(), spans@),
    ensures
        encode_utf8(r.0@) == mask_spec(input.spec_bytes(), spans@, *marks),
        blob_views(r.1@) == blobs_spec(input.spec_bytes(), spans@),
{
    let ghost bs = input.spec_bytes();
    let mut masked = String::new();
    let mut blobs: Vec<Blob<'a>> = Vec::new();
    let mut cursor: usize = 0;
    let mut k: usize = 0;
    proof {
        vstd::utf8::is_char_boundary_start_end_of_seq(bs);
    }
    assert(encode_utf8(masked@) =~= masked_upto(bs, spans@, *marks, 0));
    assert(blob_views(blobs@) =~= blobs_spec(bs, spans@).subrange(0, 0));
    while k < spans.len()
        invariant
            bs == input.spec_bytes(),
            spans_ok(bs, spans@),
            k <= spans@.len(),
            cursor == cursor_before(spans@, k as int),
            cursor <= bs.len(),
            is_char_boundary(bs, cursor as int),
            encode_utf8(masked@) == masked_upto(bs, spans@, *marks, k as int),
            blob_views(blobs@) == blobs_spec(bs, spans@).subrange(0, k as int),
        decreases spans@.len() - k,
    {
        let span = spans[k];
        assert(span == spans@[k as int]);
        let text = slice(input, span.start, span.end);
        let before = slice(input, cursor, span.start);
        push_str(&mut masked, before);
        let ph = marks.placeholder(k, &span, text);
        push_str(&mut masked, ph.as_str());
        let ghost prev = blob_views(blobs@);
        blobs.push(Blob { text, indent: source_indent(input, span.start) });
        assert(blob_views(blobs@) =~= prev.push(blobs_spec(bs, spans@)[k as int]));
        cursor = span.end;
        k = k + 1;
        assert(blob_views(blobs@) =~= blobs_spec(bs, spans@).subrange(0, k as int));
        assert(encode_utf8(masked@) =~= masked_upto(bs, spans@, *marks, k as int));
    }
    let rest = slice(input, cursor, input.as_bytes().len());
    push_str(&mut masked, rest);
    assert(blobs_spec(bs, spans@).subrange(0, spans@.len() as int) =~= blobs_spec(bs, spans@));
    (masked, blobs)
}

/// Where `a + c` occurs, `a` occurs.
proof fn lemma_prefix_occurs(b: Seq<u8>, a: Seq<u8>, c: Seq<u8>, p: int)
    requires
        occurs_at(b, a + c, p),
    ensures
        occurs_at(b, a, p),
{
    assert(b.subrange(p, p + a.len()) =~= (a + c).subrange(0, a.len() as int));
    assert((a + c).subrange(0, a.len() as int) =~= a);
}

/// No placeholder occurs in the document it was made for: a flow
/// placeholder starts with the nonce's pattern, which the document lacks,
/// and an inline one with a character the document lacks.
pub proof fn lemma_placeholders_absent(b: Seq<u8>, m: Marks, i: nat, span: Span, blob: Seq<u8>)
    requires
        marks_ok(b, m),
    ensures
        !occurs(b, placeholder_spec(m, i, span, blob)),
{
    let ph = placeholder_spec(m, i, span, blob);
    if occurs(b, ph) {
        let p = choose|p: int| occurs_at(b, ph, p);
        if span.flow {
            let head = nonce_pattern(m.nonce as nat);
            assert(ph =~= head + (decimal(i) + MARK_CLOSE()));
            lemma_prefix_occurs(b, head, decimal(i) + MARK_CLOSE(), p);
            assert(occurs(b, head));
        } else {
            let w = if holds_byte(blob, NL()) { 0 } else { blob.len() as int };
            let t = token_spec(m, i);
            let head = char_bytes(m.open);
            let tail = decimal(m.nonce as nat) + seq![0x3au8] + decimal(i) + char_bytes(m.close)
                + Seq::new(sat_sub(w, t.len() as int) as nat, |k: int| FILL());
            assert(ph =~= head + tail);
            lemma_prefix_occurs(b, head, tail, p);
            assert(occurs(b, head));
            let k = choose|k: int|
                0 <= k < PAIRS() && pair_free(b, k) && (forall|j: int| 0 <= j < k ==> !#[trigger] pair_free(b, j))
                    && m.open == pair_char(k, 0) && m.close == pair_char(k, 1);
        }
    }
}

/// The blobs as plain values.
pub open spec fn blob_views<'a>(blobs: Seq<Blob<'a>>) -> Seq<BlobView> {
    blobs.map_values(|b: Blob<'a>| b@)
}

/// `line` without `prefix` in front, or `line` as it is when it does not
/// start with it.
pub open spec fn strip_prefix_spec(line: Seq<u8>, prefix: Seq<u8>) -> Seq<u8> {
    if prefix.len() <= line.len() && line.subrange(0, prefix.len() as int) == prefix {
        line.subrange(prefix.len() as int, line.len() as int)
    } else {
        line
    }
}

/// A continuation line of a blob moved from the indentation `from` onto
/// `to`: the old indentation stripped, and the new one put in front unless
/// the line is blank.
pub open spec fn rebase_line(line: Seq<u8>, from: Seq<u8>, to: Seq<u8>) -> Seq<u8> {
    (if is_blank(line) {
        Seq::<u8>::empty()
    } else {
        to
    }) + strip_prefix_spec(line, from)
}

/// The lines of `text`, every one but the first re-based from `from` onto
/// `to`.
pub open spec fn rebased_lines(text: Seq<u8>, from: Seq<u8>, to: Seq<u8>) -> Seq<Seq<u8>> {
    let lines = split(text, NL());
    Seq::new(lines.len(), |k: int| if k == 0 { lines[0] } else { rebase_line(lines[k], from, to) })
}

/// The blob's text re-based from the indentation it had in the source onto
/// `indent`, the one comrak gave its placeholder. The first line keeps
/// whatever comrak already emitted before the placeholder. A blob on one
/// line, or one whose indentation did not change, comes back as it is.
pub open spec fn reindent_spec(blob: BlobView, indent: Seq<u8>) -> Seq<u8> {
    if !holds_byte(blob.text, NL()) || blob.indent == indent {
        blob.text
    } else {
        join(rebased_lines(blob.text, blob.indent, indent), NL())
    }
}

fn strip_prefix<'a>(line: &'a str, prefix: &str) -> (r: &'a str)
    ensures
        r.spec_bytes() == strip_prefix_spec(line.spec_bytes(), prefix.spec_bytes()),
{
    let lb = line.as_bytes();
    let pb = prefix.as_bytes();
    let n = lb.len();
    if matches_at(lb, pb, 0) {
        proof {
            vstd::utf8::is_char_boundary_start_end_of_seq(lb@);
            lemma_occurs_end_boundary(lb@, pb@, 0);
        }
        slice(line, pb.len(), n)
    } else {
        line
    }
}

/// Re-base a blob's continuation lines from the indentation it had in the
/// source onto the indentation comrak gave its placeholder.
pub fn reindent(blob: &Blob, indent: &str) -> (r: String)
    ensures
        encode_utf8(r@) == reindent_spec(blob@, indent.spec_bytes()),
{
    let tb = blob.text.as_bytes();
    let multi = has_byte(tb, 0, 0x0a);
    assert(tb@.subrange(0, tb@.len() as int) =~= tb@);
    if !multi || same(blob.indent, indent) {
        return owned(blob.text);
    }
    let lines = split_lines(blob.text);
    let ghost ls = split(blob.text.spec_bytes(), NL());
    let ghost rl = rebased_lines(blob.text.spec_bytes(), blob.indent.spec_bytes(), indent.spec_bytes());
    assert(lines@.map_values(|l: &str| l.spec_bytes())[0] == ls[0]);
    let mut out = owned(lines[0]);
    assert(rl.subrange(0, 1) =~= seq![ls[0]]);
    let mut k: usize = 1;
    while k < lines.len()
        invariant
            lines@.map_values(|l: &str| l.spec_bytes()) == ls,
            ls == split(blob.text.spec_bytes(), NL()),
            rl == rebased_lines(blob.text.spec_bytes(), blob.indent.spec_bytes(), indent.spec_bytes()),
            ls.len() == lines@.len(),
            rl.len() == ls.len(),
            1 <= k <= lines@.len(),
            encode_utf8(out@) == join(rl.subrange(0, k as int), NL()),
        decreases lines@.len() - k,
    {
        let line = lines[k];
        assert(lines@.map_values(|l: &str| l.spec_bytes())[k as int] == ls[k as int]);
        let ghost before = encode_utf8(out@);
        push_ascii(&mut out, '\n');
        let lb = line.as_bytes();
        let ghost lead = if is_blank(ls[k as int]) { Seq::<u8>::empty() } else { indent.spec_bytes() };
        if skip_ws(lb, 0) < lb.len() {
            push_str(&mut out, indent);
        } else {
            assert(encode_utf8(out@) =~= encode_utf8(out@) + lead);
        }
        push_str(&mut out, strip_prefix(line, blob.indent));
        assert(rl[k as int] == rebase_line(ls[k as int], blob.indent.spec_bytes(), indent.spec_bytes()));
        assert(rl.subrange(0, k + 1).drop_last() =~= rl.subrange(0, k as int));
        k = k + 1;
        assert(encode_utf8(out@) =~= join(rl.subrange(0, k as int), NL()));
    }
    assert(rl.subrange(0, rl.len() as int) =~= rl);
    out
}

/// Where the run of indentation bytes starting at `i` ends.
pub open spec fn indent_run(b: Seq<u8>, i: int) -> int
    decreases b.len() - i,
{
    if 0 <= i < b.len() && is_indent_byte(b[i]) {
        indent_run(b, i + 1)
    } else {
        i
    }
}

/// The spaces, tabs and `>` that `line` starts with.
pub open spec fn line_indent(line: Seq<u8>) -> Seq<u8> {
    line.subrange(0, indent_run(line, 0))
}

/// Where the first of the first `n` placeholders to occur in `rest` occurs,
/// and which one it is: the leftmost, and of two starting at the same
/// place, the one with the lower index.
pub open spec fn earliest(rest: Seq<u8>, phs: Seq<Seq<u8>>, n: int) -> Option<(int, int)>
    decreases n,
{
    if n <= 0 {
        None
    } else {
        let prev = earliest(rest, phs, n - 1);
        match find_from(rest, phs[n - 1], 0) {
            None => prev,
            Some(at) => match prev {
                Some((a, i)) => if a <= at {
                    prev
                } else {
                    Some((at, n - 1))
                },
                None => Some((at, n - 1)),
            },
        }
    }
}

pub proof fn lemma_earliest(rest: Seq<u8>, phs: Seq<Seq<u8>>, n: int)
    requires
        0 <= n <= phs.len(),
    ensures
        match earliest(rest, phs, n) {
            Some((at, i)) => 0 <= i < n && find_from(rest, phs[i], 0) == Some(at) && occurs_at(rest, phs[i], at),
            None => forall|j: int| 0 <= j < n ==> find_from(rest, #[trigger] phs[j], 0) is None,
        },
    decreases n,
{
    if n > 0 {
        lemma_earliest(rest, phs, n - 1);
        lemma_find_from(rest, phs[n - 1], 0);
    }
}

/// `rest` with each placeholder, earliest first, replaced by its blob
/// re-based onto `indent`.
pub open spec fn expand_spec(rest: Seq<u8>, phs: Seq<Seq<u8>>, blobs: Seq<BlobView>, indent: Seq<u8>) -> Seq<u8>
    decreases rest.len(),
    when forall|k: int| 0 <= k < phs.len() ==> #[trigger] phs[k].len() > 0
{
    match earliest(rest, phs, phs.len() as int) {
        None => rest,
        Some((at, i)) => {
            proof {
                lemma_earliest(rest, phs, phs.len() as int);
            }
            rest.subrange(0, at) + reindent_spec(blobs[i], indent) + expand_spec(
                rest.subrange(at + phs[i].len(), rest.len() as int),
                phs,
                blobs,
                indent,
            )
        },
    }
}

/// The formatted document with its placeholders expanded, a line at a
/// time, each blob re-based onto the indentation of the line its
/// placeholder landed on.
pub open spec fn restore_spec(formatted: Seq<u8>, phs: Seq<Seq<u8>>, blobs: Seq<BlobView>) -> Seq<u8> {
    let lines = split(formatted, NL());
    join(Seq::new(lines.len(), |k: int| expand_spec(lines[k], phs, blobs, line_indent(lines[k]))), NL())
}

/// The placeholder of each span, made from its blob.
pub open spec fn placeholders_spec(m: Marks, spans: Seq<Span>, blobs: Seq<BlobView>) -> Seq<Seq<u8>> {
    Seq::new(spans.len(), |k: int| placeholder_spec(m, k as nat, spans[k], blobs[k].text))
}

pub open spec fn string_bytes(v: Seq<String>) -> Seq<Seq<u8>> {
    v.map_values(|s: String| encode_utf8(s@))
}

/// No placeholder is empty.
pub proof fn lemma_placeholder_nonempty(m: Marks, i: nat, span: Span, blob: Seq<u8>)
    ensures
        placeholder_spec(m, i, span, blob).len() > 0,
{
    assert(MARK_OPEN().len() == 9);
    assert(char_bytes(m.open).len() > 0);
}

/// The spaces, tabs and `>` that `line` starts with.
fn leading_indent(line: &str) -> (r: &str)
    ensures
        r.spec_bytes() == line_indent(line.spec_bytes()),
{
    let b = line.as_bytes();
    let mut j: usize = 0;
    while j < b.len() && (b[j] == 0x20 || b[j] == 0x09 || b[j] == 0x3e)
        invariant
            j <= b@.len(),
            b@ == line.spec_bytes(),
            indent_run(b@, 0) == indent_run(b@, j as int),
            forall|i: int| 0 <= i < j ==> is_indent_byte(#[trigger] b@[i]),
        decreases b@.len() - j,
    {
        j = j + 1;
    }
    proof {
        lemma_boundary_local(b@, 0);
        if j > 0 {
            assert(is_indent_byte(b@[j - 1]));
            lemma_boundary_local(b@, j - 1);
            lemma_boundary_after_scalar(b@, j - 1);
        }
    }
    slice(line, 0, j)
}

/// One line of the formatted document with its placeholders expanded.
fn expand(line: &str, phs: &Vec<String>, blobs: &Vec<Blob>, indent: &str) -> (r: String)
    requires
        phs@.len() == blobs@.len(),
        forall|k: int| 0 <= k < phs@.len() ==> #[trigger] string_bytes(phs@)[k].len() > 0,
    ensures
        encode_utf8(r@) == expand_spec(line.spec_bytes(), string_bytes(phs@), blob_views(blobs@), indent.spec_bytes()),
{
    let ghost pv = string_bytes(phs@);
    let ghost bv = blob_views(blobs@);
    let ghost iv = indent.spec_bytes();
    let mut out = String::new();
    let mut rest: &str = line;
    assert(encode_utf8(out@) =~= Seq::<u8>::empty());
    loop
        invariant
            pv == string_bytes(phs@),
            bv == blob_views(blobs@),
            iv == indent.spec_bytes(),
            pv.len() == bv.len(),
            forall|k: int| 0 <= k < pv.len() ==> #[trigger] pv[k].len() > 0,
            encode_utf8(out@) + expand_spec(rest.spec_bytes(), pv, bv, iv) == expand_spec(line.spec_bytes(), pv, bv, iv),
        decreases rest.spec_bytes().len(),
    {
        let rb = rest.as_bytes();
        let n = rb.len();
        let mut best: Option<(usize, usize)> = None;
        let mut i: usize = 0;
        while i < phs.len()
            invariant
                pv == string_bytes(phs@),
                i <= phs@.len(),
                rb@ == rest.spec_bytes(),
                match best {
                    None => earliest(rb@, pv, i as int) is None,
                    Some((a, j)) => earliest(rb@, pv, i as int) == Some((a as int, j as int)),
                },
            decreases phs@.len() - i,
        {
            let pb = phs[i].as_str().as_bytes();
            assert(pb@ == pv[i as int]);
            match find_bytes(rb, pb, 0) {
                None => {},
                Some(at) => {
                    let better = match best {
                        None => true,
                        Some((a, _)) => at < a,
                    };
                    if better {
                        best = Some((at, i));
                    }
                },
            }
            i = i + 1;
        }
        proof {
            lemma_earliest(rb@, pv, pv.len() as int);
        }
        match best {
            None => {
                push_str(&mut out, rest);
                return out;
            },
            Some((at, idx)) => {
                let ghost ph = pv[idx as int];
                let plen = phs[idx].as_str().as_bytes().len();
                proof {
                    lemma_occurs_boundary(rb@, ph, at as int);
                    vstd::utf8::is_char_boundary_start_end_of_seq(rb@);
                }
                let ghost before = encode_utf8(out@);
                let ghost tail = rb@.subrange(at + ph.len(), rb@.len() as int);
                push_str(&mut out, slice(rest, 0, at));
                let piece = reindent(&blobs[idx], indent);
                assert(blobs[idx as int]@ == bv[idx as int]);
                push_str(&mut out, piece.as_str());
                let end = at + plen;
                rest = slice(rest, end, n);
                assert(encode_utf8(out@) + expand_spec(rest.spec_bytes(), pv, bv, iv) =~= before + (rb@.subrange(0, at as int) + reindent_spec(bv[idx as int], iv) + expand_spec(tail, pv, bv, iv)));
            },
        }
    }
}

/// Paste the spans' own text back over their placeholders.
///
/// Works a line at a time so a multi-line blob can be re-indented to match
/// where comrak put the placeholder. A `<Callout>` nested in a list item
/// comes back indented two spaces on its first line only; without this,
/// its continuation lines land at column zero and fall out of the list.
pub fn restore(formatted: &str, spans: &Vec<Span>, blobs: &Vec<Blob>, marks: &Marks) -> (r: String)
    requires
        spans@.len() == blobs@.len(),
    ensures
        encode_utf8(r@) == restore_spec(
            formatted.spec_bytes(),
            placeholders_spec(*marks, spans@, blob_views(blobs@)),
            blob_views(blobs@),
        ),
{
    let ghost want = placeholders_spec(*marks, spans@, blob_views(blobs@));
    let mut phs: Vec<String> = Vec::new();
    let mut k: usize = 0;
    while k < spans.len()
        invariant
            k <= spans@.len(),
            spans@.len() == blobs@.len(),
            want == placeholders_spec(*marks, spans@, blob_views(blobs@)),
            phs@.len() == k,
            forall|j: int| 0 <= j < k ==> #[trigger] string_bytes(phs@)[j] == want[j],
        decreases spans@.len() - k,
    {
        let ph = marks.placeholder(k, &spans[k], blobs[k].text);
        let ghost old_phs = phs@;
        phs.push(ph);
        proof {
            assert forall|j: int| 0 <= j < k + 1 implies #[trigger] string_bytes(phs@)[j] == want[j] by {
                if j < k {
                    assert(string_bytes(old_phs)[j] == want[j]);
                    assert(phs@[j] == old_phs[j]);
                } else {
                    assert(blob_views(blobs@)[j].text == blobs@[j].text.spec_bytes());
                }
            }
        }
        k = k + 1;
    }
    let ghost pv = string_bytes(phs@);
    let ghost bv = blob_views(blobs@);
    assert(pv =~= want);
    proof {
        assert forall|j: int| 0 <= j < pv.len() implies #[trigger] pv[j].len() > 0 by {
            lemma_placeholder_nonempty(*marks, j as nat, spans@[j], bv[j].text);
        }
    }
    let lines = split_lines(formatted);
    let ghost ls = split(formatted.spec_bytes(), NL());
    let ghost ex = Seq::new(ls.len(), |j: int| expand_spec(ls[j], pv, bv, line_indent(ls[j])));
    let mut out = String::new();
    let mut li: usize = 0;
    while li < lines.len()
        invariant
            lines@.map_values(|l: &str| l.spec_bytes()) == ls,
            ls.len() == lines@.len(),
            pv == string_bytes(phs@),
            bv == blob_views(blobs@),
            pv.len() == bv.len(),
            forall|j: int| 0 <= j < pv.len() ==> #[trigger] pv[j].len() > 0,
            ex == Seq::new(ls.len(), |j: int| expand_spec(ls[j], pv, bv, line_indent(ls[j]))),
            li <= lines@.len(),
            encode_utf8(out@) == join(ex.subrange(0, li as int), NL()),
        decreases lines@.len() - li,
    {
        let line = lines[li];
        assert(lines@.map_values(|l: &str| l.spec_bytes())[li as int] == ls[li as int]);
        if li > 0 {
            push_ascii(&mut out, '\n');
        }
        let indent = leading_indent(line);
        let piece = expand(line, &phs, blobs, indent);
        push_str(&mut out, piece.as_str());
        assert(ex.subrange(0, li + 1).drop_last() =~= ex.subrange(0, li as int));
        li = li + 1;
        assert(encode_utf8(out@) =~= join(ex.subrange(0, li as int), NL()));
    }
    assert(ex.subrange(0, ex.len() as int) =~= ex);
    out
}

/// What formatting `input` with `s` gives once its MDX constructs are known
/// to be `spans`: the spans masked, comrak run over the rest, the blobs
/// pasted back, and comrak's `<!-- end list -->` (an HTML comment, which is
/// not valid MDX) turned into the MDX comment `{/* end list */}`, which
/// still splits the two lists when the document is parsed again.
pub open spec fn format_spans_spec(input: Seq<char>, s: SettingsView, spans: Seq<Span>) -> Result<Seq<u8>, Seq<char>> {
    let b = encode_utf8(input);
    if !has_free_pair(b) {
        Err("no pair of characters is free for the MDX placeholders"@)
    } else if !spans_ok(b, spans) {
        Err("MDX node spans do not fit the document"@)
    } else {
        let m = marks_spec(b);
        let blobs = blobs_spec(b, spans);
        match commonmark_spec(decode_utf8(mask_spec(b, spans, m)), s) {
            Err(e) => Err(e),
            Ok(out) => Ok(
                replace_spec(
                    restore_spec(out, placeholders_spec(m, spans, blobs), blobs),
                    encode_utf8("<!-- end list -->"@),
                    encode_utf8("{/* end list */}"@),
                ),
            ),
        }
    }
}

/// What formatting `input` with `s` gives when the MDX parser's walk over
/// it is `tree`.
pub open spec fn format_tree_spec(input: Seq<char>, s: SettingsView, tree: Result<Seq<MdxNode>, Seq<char>>) -> Result<Seq<u8>, Seq<char>> {
    match tree {
        Err(e) => Err("could not parse MDX: "@ + e),
        Ok(nodes) => match spans_spec(nodes) {
            Err(()) => Err("MDX node has no source position"@),
            Ok(found) => format_spans_spec(input, s, sort_spans(found)),
        },
    }
}

/// What formatting the MDX document `input` with `s` gives.
pub open spec fn format_spec(input: Seq<char>, s: SettingsView) -> Result<Seq<u8>, Seq<char>> {
    format_tree_spec(input, s, mdx_tree(input))
}

pub open spec fn outcome_matches(r: Result<String, String>, want: Result<Seq<u8>, Seq<char>>) -> bool {
    match r {
        Ok(out) => want == Ok::<Seq<u8>, Seq<char>>(encode_utf8(out@)),
        Err(e) => want == Err::<Seq<u8>, Seq<char>>(e@),
    }
}

/// Format `input`, whose depth-first walk by the MDX parser is `tree`.
pub fn format_tree(input: &str, settings: &Settings, tree: Result<Vec<MdxNode>, String>) -> (r: Result<String, String>)
    ensures
        outcome_matches(r, format_tree_spec(input@, settings@, mdx_nodes_view(tree))),
{
    let nodes = match tree {
        Err(e) => {
            let mut m = owned("could not parse MDX: ");
            push_str(&mut m, e.as_str());
            return Err(m);
        },
        Ok(n) => n,
    };
    let found = match collect(&nodes) {
        None => {
            return Err(owned("MDX node has no source position"));
        },
        Some(f) => f,
    };
    let spans = sort_by_start(&found);
    if !placeholders_available(input) {
        return Err(owned("no pair of characters is free for the MDX placeholders"));
    }
    if !spans_valid(input, &spans) {
        return Err(owned("MDX node spans do not fit the document"));
    }
    let marks = Marks::for_input(input);
    let (masked, blobs) = mask(input, &spans, &marks);
    proof {
        vstd::utf8::encode_utf8_decode_utf8(masked@);
    }
    let formatted = match commonmark(masked.as_str(), settings) {
        Err(e) => {
            return Err(e);
        },
        Ok(f) => f,
    };
    assert(blob_views(blobs@).len() == blobs@.len());
    let restored = restore(formatted.as_str(), &spans, &blobs, &marks);
    proof {
        reveal_strlit("<!-- end list -->");
    }
    Ok(replace_all(restored.as_str(), "<!-- end list -->", "{/* end list */}"))
}

/// Format an MDX document. The MDX parser finds the byte spans of the MDX
/// constructs; those are swapped for placeholders that comrak carries
/// through untouched, comrak formats the Markdown around them, and the
/// author's bytes are pasted back.
pub fn format(input: &str, settings: &Settings) -> (r: Result<String, String>)
    ensures
        outcome_matches(r, format_spec(input@, settings@)),
{
    let tree = parse_mdx(input);
    format_tree(input, settings, tree)
}

/// Whether `input` leaves some pair of characters free for the inline
/// placeholders.
pub fn placeholders_available(input: &str) -> (r: bool)
    ensures
        r == has_free_pair(input.spec_bytes()),
{
    let b = input.as_bytes();
    let ghost bs = input.spec_bytes();
    let mut k: u32 = 0;
    while k < 0x81000
        invariant
            b@ == bs,
            bs == input.spec_bytes(),
            k <= PAIRS(),
            forall|j: int| 0 <= j < k ==> !#[trigger] pair_free(bs, j),
        decreases PAIRS() - k,
    {
        let open = char_from(0xe000 + 2 * k);
        let close = char_from(0xe001 + 2 * k);
        assert(open == pair_char(k as int, 0));
        assert(close == pair_char(k as int, 1));
        let ot = char_text(open);
        let ct = char_text(close);
        if !contains_bytes(b, ot.as_str().as_bytes()) && !contains_bytes(b, ct.as_str().as_bytes()) {
            assert(pair_free(bs, k as int));
            return true;
        }
        k = k + 1;
    }
    false
}

} // verus!
