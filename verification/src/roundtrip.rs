//! Pasting the blobs back over a masked document gives the document back.
//!
//! comrak sits between masking and restoring, and what it does to the
//! Markdown around the placeholders is its own business. What the masking
//! itself owes is that, had comrak left the masked document alone, restoring
//! it would give back exactly the document that was masked: no placeholder is
//! mistaken for another, none is found where the document merely happens to
//! hold something like one, and every blob lands where its placeholder was.

use vstd::prelude::*;
use vstd::utf8::*;

use crate::mdx::{
    BlobView, FILL, MARK_CLOSE, MARK_OPEN, Marks, NL, PAIRS, Span, blob_text, blobs_spec, char_bytes,
    cursor_before, earliest, indent_run, is_indent_byte, lemma_placeholder_nonempty, line_indent, line_start,
    source_indent_spec, expand_spec, lemma_earliest, lemma_placeholders_absent, marks_ok, mask_spec,
    masked_upto, pair_char, placeholder_spec, placeholders_spec, reindent_spec, restore_spec, spans_ok,
    token_spec,
};
use crate::format::holds_byte;
use crate::table::sat_sub;
use crate::text::{decimal, find_from, join, split, lemma_split_join, lemma_split_len, lemma_split_pieces, lemma_join_split, lemma_decimal_digits, lemma_decimal_injective, lemma_find_from, occurs, occurs_at};

verus! {

broadcast use vstd::utf8::group_utf8_lib;

/// The encoding of a character from U+E000 up: a leading byte of at least
/// `0xE0`, then continuation bytes, three bytes below U+10000 and four from
/// there on.
proof fn lemma_high_char_bytes(c: char)
    requires
        0xe000 <= c as u32,
    ensures
        char_bytes(c).len() == (if (c as u32) < 0x10000 { 3int } else { 4int }),
        char_bytes(c)[0] >= 0xe0,
        forall|i: int| 1 <= i < char_bytes(c).len() ==> 0x80 <= #[trigger] char_bytes(c)[i] <= 0xbf,
{
    let v = c as u32;
    assert(seq![c].drop_first() =~= Seq::<char>::empty());
    assert(encode_utf8(Seq::<char>::empty()) =~= Seq::<u8>::empty());
    assert(seq![c][0] == c);
    assert(char_bytes(c) =~= encode_scalar(v));
    assert(0xe0u8 | (((v >> 12u32) & 0x0fu32) as u8) >= 0xe0) by (bit_vector);
    assert(0xf0u8 | (((v >> 18u32) & 0x7u32) as u8) >= 0xe0) by (bit_vector);
    assert(0x80u8 <= 0x80u8 | ((v & 0x3fu32) as u8) <= 0xbfu8) by (bit_vector);
    assert(0x80u8 <= 0x80u8 | (((v >> 6u32) & 0x3fu32) as u8) <= 0xbfu8) by (bit_vector);
    assert(0x80u8 <= 0x80u8 | (((v >> 12u32) & 0x3fu32) as u8) <= 0xbfu8) by (bit_vector);
}

/// The two characters of a pair are distinct, encode to as many bytes, and
/// encode differently.
proof fn lemma_pair_chars(k: int)
    requires
        0 <= k < PAIRS(),
    ensures
        pair_char(k, 0) as u32 == 0xe000 + 2 * k,
        pair_char(k, 1) as u32 == 0xe000 + 2 * k + 1,
        char_bytes(pair_char(k, 0)).len() == char_bytes(pair_char(k, 1)).len(),
        char_bytes(pair_char(k, 0)) != char_bytes(pair_char(k, 1)),
{
    let a = pair_char(k, 0);
    let b = pair_char(k, 1);
    lemma_high_char_bytes(a);
    lemma_high_char_bytes(b);
    if char_bytes(a) == char_bytes(b) {
        vstd::utf8::encode_utf8_decode_utf8(seq![a]);
        vstd::utf8::encode_utf8_decode_utf8(seq![b]);
        assert(seq![a][0] == seq![b][0]);
    }
}

/// Whether the marks' two characters are a pair from U+E000 up.
pub open spec fn paired(m: Marks) -> bool {
    exists|k: int| 0 <= k < PAIRS() && m.open == pair_char(k, 0) && m.close == pair_char(k, 1)
}

/// What a placeholder holds before its index: the opening of an HTML
/// comment or the opening character, then the nonce and a colon.
pub open spec fn ph_head(m: Marks, flow: bool) -> Seq<u8> {
    (if flow {
        MARK_OPEN()
    } else {
        char_bytes(m.open)
    }) + decimal(m.nonce as nat) + seq![0x3au8]
}

/// What a placeholder holds after its index.
pub open spec fn ph_tail(m: Marks, flow: bool, pad: nat) -> Seq<u8> {
    if flow {
        MARK_CLOSE()
    } else {
        char_bytes(m.close) + Seq::new(pad, |k: int| FILL())
    }
}

/// How much padding a placeholder carries.
pub open spec fn ph_pad(m: Marks, i: nat, span: Span, blob: Seq<u8>) -> nat {
    if span.flow || holds_byte(blob, NL()) {
        0
    } else {
        sat_sub(blob.len() as int, token_spec(m, i).len() as int) as nat
    }
}

proof fn lemma_ph_shape(m: Marks, i: nat, span: Span, blob: Seq<u8>)
    ensures
        placeholder_spec(m, i, span, blob) == ph_head(m, span.flow) + decimal(i) + ph_tail(
            m,
            span.flow,
            ph_pad(m, i, span, blob),
        ),
{
    let ph = placeholder_spec(m, i, span, blob);
    if span.flow {
        assert(ph =~= ph_head(m, true) + decimal(i) + ph_tail(m, true, 0));
    } else {
        let pad = ph_pad(m, i, span, blob);
        assert(ph =~= ph_head(m, false) + decimal(i) + ph_tail(m, false, pad));
    }
}

/// The bytes a placeholder is made of. A flow placeholder is ASCII and has
/// its `<` at the start only; an inline one has no `<` at all, and bytes of
/// `0xE0` and up only where its two characters start.
proof fn lemma_ph_bytes(m: Marks, i: nat, span: Span, blob: Seq<u8>)
    requires
        paired(m),
    ensures
        ({
            let ph = placeholder_spec(m, i, span, blob);
            let c0 = ph_head(m, false).len() + decimal(i).len() as int;
            let close = char_bytes(m.close);
            &&& ph.len() > 0
            &&& forall|d: int| 0 <= d < ph.len() ==> #[trigger] ph[d] != 0x0a
            &&& span.flow ==> ph[0] == 0x3c && forall|d: int| 0 < d < ph.len() ==> #[trigger] ph[d] < 0x80 && ph[d] != 0x3c
            &&& !span.flow ==> {
                &&& ph[0] == char_bytes(m.open)[0]
                &&& ph[0] >= 0xe0
                &&& forall|d: int| 0 < d < ph.len() ==> #[trigger] ph[d] != 0x3c && (ph[d] >= 0xe0 ==> d == c0)
                &&& c0 + close.len() <= ph.len()
                &&& ph.subrange(c0, c0 + close.len()) == close
            }
        }),
{
    let k = choose|k: int| 0 <= k < PAIRS() && m.open == pair_char(k, 0) && m.close == pair_char(k, 1);
    lemma_pair_chars(k);
    lemma_high_char_bytes(m.open);
    lemma_high_char_bytes(m.close);
    lemma_decimal_digits(m.nonce as nat);
    lemma_decimal_digits(i);
    lemma_ph_shape(m, i, span, blob);
    let ph = placeholder_spec(m, i, span, blob);
    let n = decimal(m.nonce as nat);
    let di = decimal(i);
    let pad = ph_pad(m, i, span, blob);
    if span.flow {
        let x = MARK_OPEN();
        let h = ph_head(m, true);
        let t = ph_tail(m, true, pad);
        assert(ph[0] == x[0]);
        assert forall|d: int| 0 <= d < ph.len() implies #[trigger] ph[d] < 0x80 && ph[d] != 0x3c || d == 0 by {
            if d < x.len() {
                assert(ph[d] == x[d]);
            } else if d < x.len() + n.len() {
                assert(ph[d] == n[d - x.len()]);
            } else if d < h.len() {
                assert(ph[d] == 0x3a);
            } else if d < h.len() + di.len() {
                assert(ph[d] == di[d - h.len()]);
            } else {
                assert(ph[d] == t[d - h.len() - di.len()]);
            }
        }
    } else {
        let x = char_bytes(m.open);
        let h = ph_head(m, false);
        let close = char_bytes(m.close);
        let t = ph_tail(m, false, pad);
        let c0 = h.len() + di.len() as int;
        assert(ph[0] == x[0]);
        assert forall|d: int| 0 <= d < ph.len() implies #[trigger] ph[d] != 0x0a && (d > 0 ==> ph[d] != 0x3c && (ph[d] >= 0xe0 ==> d == c0)) by {
            if d < x.len() {
                assert(ph[d] == x[d]);
            } else if d < x.len() + n.len() {
                assert(ph[d] == n[d - x.len()]);
            } else if d < h.len() {
                assert(ph[d] == 0x3a);
            } else if d < c0 {
                assert(ph[d] == di[d - h.len()]);
            } else if d < c0 + close.len() {
                assert(ph[d] == close[d - c0]);
            } else {
                assert(ph[d] == t[d - c0]);
                assert(t[d - c0] == FILL());
            }
        }
        assert(ph.subrange(c0, c0 + close.len()) =~= close);
    }
}

/// Two placeholders of the same marks that agree as far as both go are the
/// same placeholder: the index is followed by a byte that is no digit.
proof fn lemma_ph_prefix(m: Marks, i: nat, si: Span, bi: Seq<u8>, j: nat, sj: Span, bj: Seq<u8>)
    requires
        paired(m),
        ({
            let x = placeholder_spec(m, i, si, bi);
            let y = placeholder_spec(m, j, sj, bj);
            forall|d: int| 0 <= d < x.len() && d < y.len() ==> x[d] == y[d]
        }),
    ensures
        i == j,
{
    let x = placeholder_spec(m, i, si, bi);
    let y = placeholder_spec(m, j, sj, bj);
    lemma_ph_bytes(m, i, si, bi);
    lemma_ph_bytes(m, j, sj, bj);
    assert(x[0] == y[0]);
    assert(si.flow == sj.flow);
    let flow = si.flow;
    let k = choose|k: int| 0 <= k < PAIRS() && m.open == pair_char(k, 0) && m.close == pair_char(k, 1);
    lemma_pair_chars(k);
    lemma_high_char_bytes(m.close);
    lemma_decimal_digits(i);
    lemma_decimal_digits(j);
    lemma_ph_shape(m, i, si, bi);
    lemma_ph_shape(m, j, sj, bj);
    let h = ph_head(m, flow);
    let di = decimal(i);
    let dj = decimal(j);
    let ti = ph_tail(m, flow, ph_pad(m, i, si, bi));
    let tj = ph_tail(m, flow, ph_pad(m, j, sj, bj));
    assert(ti.len() > 0 && tj.len() > 0);
    assert(ti[0] < 0x30 || ti[0] > 0x39);
    assert(tj[0] < 0x30 || tj[0] > 0x39);
    if di.len() < dj.len() {
        let d = h.len() + di.len() as int;
        assert(x[d] == ti[0]);
        assert(y[d] == dj[di.len() as int]);
    } else if dj.len() < di.len() {
        let d = h.len() + dj.len() as int;
        assert(y[d] == tj[0]);
        assert(x[d] == di[dj.len() as int]);
    } else {
        assert forall|e: int| 0 <= e < di.len() implies di[e] == dj[e] by {
            assert(x[h.len() + e] == di[e]);
            assert(y[h.len() + e] == dj[e]);
        }
        assert(di =~= dj);
        lemma_decimal_injective(i, j);
    }
}

/// A placeholder found in a line never starts before another placeholder
/// there and runs into it.
proof fn lemma_no_straddle(
    line: Seq<u8>,
    m: Marks,
    j: nat,
    sj: Span,
    bj: Seq<u8>,
    p: int,
    a: nat,
    sa: Span,
    ba: Seq<u8>,
    q: int,
)
    requires
        paired(m),
        ({
            let x = placeholder_spec(m, j, sj, bj);
            let y = placeholder_spec(m, a, sa, ba);
            &&& 0 <= p < q < p + x.len()
            &&& p + x.len() <= line.len()
            &&& q + y.len() <= line.len()
            &&& line.subrange(q, q + y.len()) == y
        }),
    ensures
        line.subrange(p, p + placeholder_spec(m, j, sj, bj).len()) != placeholder_spec(m, j, sj, bj),
{
    let x = placeholder_spec(m, j, sj, bj);
    let y = placeholder_spec(m, a, sa, ba);
    if line.subrange(p, p + x.len()) == x {
        lemma_ph_bytes(m, j, sj, bj);
        lemma_ph_bytes(m, a, sa, ba);
        let d = q - p;
        assert(x[d] == line[q]) by {
            assert(line.subrange(p, p + x.len())[d] == line[p + d]);
        }
        assert(y[0] == line[q]) by {
            assert(line.subrange(q, q + y.len())[0] == line[q]);
        }
        if !sa.flow {
            let k = choose|k: int| 0 <= k < PAIRS() && m.open == pair_char(k, 0) && m.close == pair_char(k, 1);
            lemma_pair_chars(k);
            lemma_ph_shape(m, a, sa, ba);
            let open = char_bytes(m.open);
            let close = char_bytes(m.close);
            let c0 = ph_head(m, false).len() + decimal(j).len() as int;
            assert(!sj.flow);
            assert(d == c0);
            assert forall|e: int| 0 <= e < close.len() implies open[e] == close[e] by {
                assert(y[e] == open[e]);
                assert(x.subrange(c0, c0 + close.len())[e] == x[c0 + e]);
                assert(line.subrange(p, p + x.len())[d + e] == line[q + e]);
                assert(line.subrange(q, q + y.len())[e] == line[q + e]);
            }
            assert(open =~= close);
        }
    }
}

/// A piece of a document: text, held as `(text, -1)`, or the construct
/// with index `k`, held as `(_, k)`.
pub open spec fn piece_text(x: (Seq<u8>, int), f: spec_fn(int) -> Seq<u8>) -> Seq<u8> {
    if x.1 < 0 {
        x.0
    } else {
        f(x.1)
    }
}

/// The pieces one after another, each construct written as `f` says.
pub open spec fn render(p: Seq<(Seq<u8>, int)>, f: spec_fn(int) -> Seq<u8>) -> Seq<u8>
    decreases p.len(),
{
    if p.len() == 0 {
        Seq::<u8>::empty()
    } else {
        piece_text(p[0], f) + render(p.drop_first(), f)
    }
}

proof fn lemma_render_push(p: Seq<(Seq<u8>, int)>, x: (Seq<u8>, int), f: spec_fn(int) -> Seq<u8>)
    ensures
        render(p.push(x), f) == render(p, f) + piece_text(x, f),
    decreases p.len(),
{
    if p.len() == 0 {
        assert(p.push(x).drop_first() =~= Seq::<(Seq<u8>, int)>::empty());
        assert(render(p.push(x).drop_first(), f) =~= Seq::<u8>::empty());
        assert(p.push(x)[0] == x);
        assert(render(p, f) =~= Seq::<u8>::empty());
        assert(render(p.push(x), f) =~= render(p, f) + piece_text(x, f));
    } else {
        lemma_render_push(p.drop_first(), x, f);
        assert(p.push(x).drop_first() =~= p.drop_first().push(x));
        assert(render(p.push(x), f) =~= render(p, f) + piece_text(x, f));
    }
}

/// The placeholders are those of `m` for `spans` and `blobs`, and the marks'
/// characters are a pair.
pub open spec fn placeholders_of(m: Marks, spans: Seq<Span>, blobs: Seq<BlobView>, phs: Seq<Seq<u8>>) -> bool {
    &&& paired(m)
    &&& phs.len() == spans.len()
    &&& blobs.len() == spans.len()
    &&& forall|k: int| 0 <= k < phs.len() ==> #[trigger] phs[k] == placeholder_spec(m, k as nat, spans[k], blobs[k].text)
}

/// Text holding none of the placeholders.
pub open spec fn clean(t: Seq<u8>, phs: Seq<Seq<u8>>) -> bool {
    forall|j: int| 0 <= j < phs.len() ==> !occurs(t, #[trigger] phs[j])
}

/// A line of a masked document: text and placeholders taking turns, text
/// first and last, the text holding neither a line feed nor a placeholder.
pub open spec fn masked_line(l: Seq<(Seq<u8>, int)>, phs: Seq<Seq<u8>>) -> bool {
    &&& l.len() % 2 == 1
    &&& forall|i: int|
        0 <= i < l.len() ==> (i % 2 == 0 ==> (#[trigger] l[i]).1 < 0 && clean(l[i].0, phs) && !holds_byte(l[i].0, NL()))
            && (i % 2 == 1 ==> 0 <= l[i].1 < phs.len())
}

proof fn lemma_earliest_is(rest: Seq<u8>, phs: Seq<Seq<u8>>, n: int, q: int, a: int)
    requires
        0 <= n <= phs.len(),
        0 <= a < phs.len(),
        find_from(rest, phs[a], 0) == Some(q),
        forall|j: int|
            0 <= j < phs.len() ==> match find_from(rest, #[trigger] phs[j], 0) {
                Some(x) => x > q || (x == q && j == a),
                None => true,
            },
    ensures
        n <= a ==> match earliest(rest, phs, n) {
            Some((x, i)) => x > q,
            None => true,
        },
        n > a ==> earliest(rest, phs, n) == Some((q, a)),
    decreases n,
{
    if n > 0 {
        lemma_earliest_is(rest, phs, n - 1, q, a);
        lemma_earliest(rest, phs, n - 1);
        let j = n - 1;
        assert(match find_from(rest, phs[j], 0) {
            Some(x) => x > q || (x == q && j == a),
            None => true,
        });
    }
}

/// Expanding a masked line puts each construct's blob back over its
/// placeholder, re-based onto the line's indentation.
proof fn lemma_expand_line(
    l: Seq<(Seq<u8>, int)>,
    m: Marks,
    spans: Seq<Span>,
    blobs: Seq<BlobView>,
    phs: Seq<Seq<u8>>,
    indent: Seq<u8>,
    fm: spec_fn(int) -> Seq<u8>,
    fr: spec_fn(int) -> Seq<u8>,
)
    requires
        placeholders_of(m, spans, blobs, phs),
        masked_line(l, phs),
        forall|k: int| 0 <= k < phs.len() ==> #[trigger] fm(k) == phs[k],
        forall|i: int| 0 <= i < l.len() && (#[trigger] l[i]).1 >= 0 ==> fr(l[i].1) == reindent_spec(blobs[l[i].1], indent),
    ensures
        expand_spec(render(l, fm), phs, blobs, indent) == render(l, fr),
    decreases l.len(),
{
    assert forall|k: int| 0 <= k < phs.len() implies #[trigger] phs[k].len() > 0 by {
        lemma_ph_bytes(m, k as nat, spans[k], blobs[k].text);
    }
    let t = l[0].0;
    assert(l[0].1 < 0 && clean(t, phs));
    let line = render(l, fm);
    if l.len() == 1 {
        assert(l.drop_first() =~= Seq::<(Seq<u8>, int)>::empty());
        assert(render(l.drop_first(), fm) =~= Seq::<u8>::empty());
        assert(render(l.drop_first(), fr) =~= Seq::<u8>::empty());
        assert(line =~= t);
        assert(render(l, fr) =~= t);
        lemma_earliest(line, phs, phs.len() as int);
        if let Some((at, i)) = earliest(line, phs, phs.len() as int) {
            lemma_find_from(line, phs[i], 0);
            assert(occurs(t, phs[i]));
        }
    } else {
        let a = l[1].1;
        assert(0 <= a < phs.len());
        let y = phs[a];
        let rest = l.drop_first().drop_first();
        assert forall|i: int| 0 <= i < rest.len() implies #[trigger] rest[i] == l[i + 2] by {}
        assert(masked_line(rest, phs));
        assert(l[1].1 >= 0);
        assert(fr(a) == reindent_spec(blobs[a], indent));
        let tail = render(rest, fm);
        assert(render(l.drop_first(), fm) == y + tail) by {
            assert(l.drop_first()[0] == l[1]);
            assert(l.drop_first().drop_first() =~= rest);
        }
        assert(line =~= t + y + tail);
        let q = t.len() as int;
        assert(line.subrange(q, q + y.len()) =~= y);
        assert(occurs_at(line, y, q));
        assert forall|j: int| 0 <= j < phs.len() implies match find_from(line, #[trigger] phs[j], 0) {
            Some(x) => x > q || (x == q && j == a),
            None => true,
        } by {
            lemma_find_from(line, phs[j], 0);
            let x = phs[j];
            assert forall|p: int| 0 <= p < q implies !occurs_at(line, x, p) by {
                if p + x.len() <= q {
                    if occurs_at(line, x, p) {
                        assert(t.subrange(p, p + x.len()) =~= line.subrange(p, p + x.len()));
                        assert(occurs_at(t, x, p));
                    }
                } else if p + x.len() <= line.len() {
                    lemma_no_straddle(line, m, j as nat, spans[j], blobs[j].text, p, a as nat, spans[a], blobs[a].text, q);
                }
            }
            if occurs_at(line, x, q) {
                assert forall|d: int| 0 <= d < x.len() && d < y.len() implies x[d] == y[d] by {
                    assert(line.subrange(q, q + x.len())[d] == line[q + d]);
                    assert(line.subrange(q, q + y.len())[d] == line[q + d]);
                }
                lemma_ph_prefix(m, j as nat, spans[j], blobs[j].text, a as nat, spans[a], blobs[a].text);
            }
        }
        lemma_find_from(line, y, 0);
        lemma_earliest_is(line, phs, phs.len() as int, q, a);
        assert(line.subrange(0, q) =~= t);
        assert(line.subrange(q + y.len(), line.len() as int) =~= tail);
        lemma_expand_line(rest, m, spans, blobs, phs, indent, fm, fr);
        assert(render(l.drop_first(), fr) == fr(a) + render(rest, fr)) by {
            assert(l.drop_first()[0] == l[1]);
            assert(l.drop_first().drop_first() =~= rest);
        }
        assert(render(l, fr) =~= t + fr(a) + render(rest, fr));
    }
}

/// The document cut into pieces up to the `k`-th construct: the text before
/// each construct, then the construct.
pub open spec fn pieces_upto(b: Seq<u8>, spans: Seq<Span>, k: int) -> Seq<(Seq<u8>, int)>
    decreases k,
{
    if k <= 0 {
        Seq::<(Seq<u8>, int)>::empty()
    } else {
        pieces_upto(b, spans, k - 1).push((b.subrange(cursor_before(spans, k - 1), spans[k - 1].start as int), -1int)).push(
            (Seq::<u8>::empty(), k - 1),
        )
    }
}

/// The whole document cut into pieces: text and constructs in turn.
pub open spec fn pieces_of(b: Seq<u8>, spans: Seq<Span>) -> Seq<(Seq<u8>, int)> {
    pieces_upto(b, spans, spans.len() as int).push(
        (b.subrange(cursor_before(spans, spans.len() as int), b.len() as int), -1int),
    )
}

proof fn lemma_pieces_mask(b: Seq<u8>, spans: Seq<Span>, m: Marks, fm: spec_fn(int) -> Seq<u8>, k: int)
    requires
        0 <= k <= spans.len(),
        forall|j: int|
            0 <= j < spans.len() ==> #[trigger] fm(j) == placeholder_spec(m, j as nat, spans[j], blob_text(b, spans[j])),
    ensures
        render(pieces_upto(b, spans, k), fm) == masked_upto(b, spans, m, k),
    decreases k,
{
    if k > 0 {
        lemma_pieces_mask(b, spans, m, fm, k - 1);
        let p = pieces_upto(b, spans, k - 1);
        let t = (b.subrange(cursor_before(spans, k - 1), spans[k - 1].start as int), -1int);
        let x = (Seq::<u8>::empty(), k - 1);
        lemma_render_push(p, t, fm);
        lemma_render_push(p.push(t), x, fm);
    }
}

proof fn lemma_pieces_input(b: Seq<u8>, spans: Seq<Span>, fx: spec_fn(int) -> Seq<u8>, k: int)
    requires
        0 <= k <= spans.len(),
        spans_ok(b, spans),
        forall|j: int| 0 <= j < spans.len() ==> #[trigger] fx(j) == blob_text(b, spans[j]),
    ensures
        render(pieces_upto(b, spans, k), fx) == b.subrange(0, cursor_before(spans, k)),
        0 <= cursor_before(spans, k) <= b.len(),
    decreases k,
{
    if k > 0 {
        lemma_pieces_input(b, spans, fx, k - 1);
        let p = pieces_upto(b, spans, k - 1);
        let c = cursor_before(spans, k - 1);
        let sp = spans[k - 1];
        assert(c <= sp.start <= sp.end <= b.len());
        let t = (b.subrange(c, sp.start as int), -1int);
        let x = (Seq::<u8>::empty(), k - 1);
        lemma_render_push(p, t, fx);
        lemma_render_push(p.push(t), x, fx);
        assert(b.subrange(0, c) + b.subrange(c, sp.start as int) + b.subrange(sp.start as int, sp.end as int)
            =~= b.subrange(0, sp.end as int));
    } else {
        assert(b.subrange(0, 0) =~= Seq::<u8>::empty());
    }
}

/// The pieces of the document, written with the constructs' own text, are
/// the document.
proof fn lemma_pieces_render_input(b: Seq<u8>, spans: Seq<Span>, fx: spec_fn(int) -> Seq<u8>)
    requires
        spans_ok(b, spans),
        forall|j: int| 0 <= j < spans.len() ==> #[trigger] fx(j) == blob_text(b, spans[j]),
    ensures
        render(pieces_of(b, spans), fx) == b,
{
    let n = spans.len() as int;
    lemma_pieces_input(b, spans, fx, n);
    let c = cursor_before(spans, n);
    lemma_render_push(pieces_upto(b, spans, n), (b.subrange(c, b.len() as int), -1int), fx);
    assert(b.subrange(0, c) + b.subrange(c, b.len() as int) =~= b);
}

/// The pieces cut at each line feed in their text: one line of pieces per
/// line of the document they make up.
pub open spec fn lines_of(p: Seq<(Seq<u8>, int)>) -> Seq<Seq<(Seq<u8>, int)>>
    decreases p.len(),
{
    if p.len() == 0 {
        seq![Seq::<(Seq<u8>, int)>::empty()]
    } else {
        let ls = lines_of(p.drop_last());
        let x = p.last();
        if x.1 >= 0 {
            ls.update(ls.len() - 1, ls.last().push(x))
        } else {
            let parts = split(x.0, NL());
            ls.update(ls.len() - 1, ls.last().push((parts[0], -1int))) + Seq::new(
                (parts.len() - 1) as nat,
                |i: int| seq![(parts[i + 1], -1int)],
            )
        }
    }
}

/// Each line of pieces written out.
pub open spec fn rendered(ls: Seq<Seq<(Seq<u8>, int)>>, f: spec_fn(int) -> Seq<u8>) -> Seq<Seq<u8>> {
    Seq::new(ls.len(), |i: int| render(ls[i], f))
}

proof fn lemma_lines_of_len(p: Seq<(Seq<u8>, int)>)
    ensures
        lines_of(p).len() >= 1,
    decreases p.len(),
{
    if p.len() > 0 {
        lemma_lines_of_len(p.drop_last());
        lemma_split_len(p.last().0, NL());
    }
}

proof fn lemma_join_last(r: Seq<Seq<u8>>, y: Seq<u8>, sep: u8)
    requires
        r.len() >= 1,
    ensures
        join(r.update(r.len() - 1, r.last() + y), sep) == join(r, sep) + y,
{
    let u = r.update(r.len() - 1, r.last() + y);
    if r.len() > 1 {
        assert(u.drop_last() =~= r.drop_last());
        assert(join(u, sep) =~= join(r, sep) + y);
    }
}

proof fn lemma_join_concat(a: Seq<Seq<u8>>, c: Seq<Seq<u8>>, sep: u8)
    requires
        a.len() >= 1,
        c.len() >= 1,
    ensures
        join(a + c, sep) == join(a, sep).push(sep) + join(c, sep),
    decreases c.len(),
{
    if c.len() == 1 {
        assert((a + c).drop_last() =~= a);
        assert((a + c).last() == c[0]);
    } else {
        lemma_join_concat(a, c.drop_last(), sep);
        assert((a + c).drop_last() =~= a + c.drop_last());
        assert((a + c).last() == c.last());
        assert(join(a + c, sep) =~= join(a, sep).push(sep) + join(c, sep));
    }
}

proof fn lemma_join_first(r: Seq<Seq<u8>>, sep: u8)
    requires
        r.len() >= 2,
    ensures
        join(r, sep) == r[0].push(sep) + join(r.drop_first(), sep),
{
    lemma_join_concat(seq![r[0]], r.drop_first(), sep);
    assert(seq![r[0]] + r.drop_first() =~= r);
}

/// Writing out the lines of pieces and joining them with line feeds writes
/// out the pieces.
proof fn lemma_lines_join(p: Seq<(Seq<u8>, int)>, f: spec_fn(int) -> Seq<u8>)
    ensures
        join(rendered(lines_of(p), f), NL()) == render(p, f),
    decreases p.len(),
{
    if p.len() == 0 {
        assert(rendered(lines_of(p), f) =~= seq![Seq::<u8>::empty()]);
    } else {
        let q = p.drop_last();
        let x = p.last();
        let ls = lines_of(q);
        lemma_lines_of_len(q);
        lemma_lines_join(q, f);
        assert(q.push(x) =~= p);
        lemma_render_push(q, x, f);
        let r = rendered(ls, f);
        if x.1 >= 0 {
            lemma_render_push(ls.last(), x, f);
            assert(rendered(lines_of(p), f) =~= r.update(r.len() - 1, r.last() + f(x.1)));
            lemma_join_last(r, f(x.1), NL());
        } else {
            let parts = split(x.0, NL());
            lemma_split_len(x.0, NL());
            lemma_join_split(x.0, NL());
            let head = (parts[0], -1int);
            lemma_render_push(ls.last(), head, f);
            let a = r.update(r.len() - 1, r.last() + parts[0]);
            let c = parts.drop_first();
            assert(rendered(lines_of(p), f) =~= a + c) by {
                assert forall|i: int| 0 <= i < c.len() implies render(seq![(parts[i + 1], -1int)], f) == c[i] by {
                    assert(seq![(parts[i + 1], -1int)].drop_first() =~= Seq::<(Seq<u8>, int)>::empty());
                    assert(render(Seq::<(Seq<u8>, int)>::empty(), f) =~= Seq::<u8>::empty());
                    assert(render(seq![(parts[i + 1], -1int)], f) =~= parts[i + 1]);
                }
            }
            lemma_join_last(r, parts[0], NL());
            if c.len() == 0 {
                assert(a + c =~= a);
                assert(parts =~= seq![parts[0]]);
            } else {
                lemma_join_concat(a, c, NL());
                lemma_join_first(parts, NL());
                assert(join(a + c, NL()) =~= render(q, f) + (parts[0].push(NL()) + join(c, NL())));
            }
        }
    }
}

/// Whether `piece` is a stretch of `t`.
pub open spec fn stretch_of(piece: Seq<u8>, t: Seq<u8>) -> bool {
    exists|x: int| 0 <= x && x + piece.len() <= t.len() && #[trigger] t.subrange(x, x + piece.len()) == piece
}

/// Each piece of a split is a stretch of what was split, the last one its
/// end.
proof fn lemma_split_sub(t: Seq<u8>, sep: u8)
    ensures
        split(t, sep).last() == t.subrange(t.len() - split(t, sep).last().len(), t.len() as int),
        split(t, sep).last().len() <= t.len(),
        forall|k: int| 0 <= k < split(t, sep).len() ==> stretch_of(#[trigger] split(t, sep)[k], t),
    decreases t.len(),
{
    lemma_split_len(t, sep);
    let cur = split(t, sep);
    if t.len() == 0 {
        assert(cur =~= seq![Seq::<u8>::empty()]);
        assert(t.subrange(0int, 0int + cur[0].len()) =~= cur[0]);
        assert(stretch_of(cur[0], t));
    } else {
        let u = t.drop_last();
        let prev = split(u, sep);
        lemma_split_sub(u, sep);
        lemma_split_len(u, sep);
        assert forall|k: int| 0 <= k < cur.len() implies stretch_of(#[trigger] cur[k], t) by {
            if k < prev.len() - 1 || (k == prev.len() - 1 && t.last() == sep) {
                assert(stretch_of(prev[k], u));
                let x = choose|x: int| 0 <= x && x + prev[k].len() <= u.len() && #[trigger] u.subrange(x, x + prev[k].len()) == prev[k];
                assert(cur[k] == prev[k]);
                assert(t.subrange(x, x + cur[k].len()) =~= u.subrange(x, x + prev[k].len()));
            } else if t.last() == sep {
                let x = t.len() as int;
                assert(cur[k] =~= Seq::<u8>::empty());
                assert(t.subrange(x, x + cur[k].len()) =~= cur[k]);
            } else {
                let x = u.len() - prev.last().len();
                assert(cur[k] == prev.last().push(t.last()));
                assert(t.subrange(x, x + cur[k].len()) =~= cur[k]);
            }
        }
        if t.last() == sep {
            assert(t.subrange(t.len() as int, t.len() as int) =~= cur.last());
        } else {
            assert(t.subrange(t.len() - cur.last().len(), t.len() as int) =~= cur.last());
        }
    }
}

proof fn lemma_clean_sub(t: Seq<u8>, phs: Seq<Seq<u8>>, x: int, y: int)
    requires
        clean(t, phs),
        0 <= x <= y <= t.len(),
    ensures
        clean(t.subrange(x, y), phs),
{
    let s = t.subrange(x, y);
    assert forall|j: int| 0 <= j < phs.len() implies !occurs(s, #[trigger] phs[j]) by {
        if occurs(s, phs[j]) {
            let i = choose|i: int| occurs_at(s, phs[j], i);
            assert(t.subrange(x + i, x + i + phs[j].len()) =~= s.subrange(i, i + phs[j].len()));
            assert(occurs_at(t, phs[j], x + i));
        }
    }
}

/// The lines are masked lines but for the last, which may still want its
/// closing text.
pub open spec fn lines_ok(ls: Seq<Seq<(Seq<u8>, int)>>, phs: Seq<Seq<u8>>, open_end: bool) -> bool {
    &&& ls.len() >= 1
    &&& forall|i: int| 0 <= i < ls.len() - 1 ==> masked_line(#[trigger] ls[i], phs)
    &&& if open_end {
        let l = ls.last();
        &&& l.len() % 2 == 0
        &&& forall|i: int|
            0 <= i < l.len() ==> (i % 2 == 0 ==> (#[trigger] l[i]).1 < 0 && clean(l[i].0, phs) && !holds_byte(
                l[i].0,
                NL(),
            )) && (i % 2 == 1 ==> 0 <= l[i].1 < phs.len())
    } else {
        masked_line(ls.last(), phs)
    }
}

/// Adding text that holds no placeholder closes the last line and opens as
/// many new ones as the text has line feeds.
proof fn lemma_lines_text(p: Seq<(Seq<u8>, int)>, t: Seq<u8>, phs: Seq<Seq<u8>>)
    requires
        lines_ok(lines_of(p), phs, true),
        clean(t, phs),
    ensures
        lines_ok(lines_of(p.push((t, -1int))), phs, false),
{
    let q = p.push((t, -1int));
    assert(q.drop_last() =~= p);
    let ls = lines_of(p);
    let parts = split(t, NL());
    lemma_split_len(t, NL());
    lemma_split_pieces(t, NL());
    lemma_split_sub(t, NL());
    assert forall|k: int| 0 <= k < parts.len() implies clean(#[trigger] parts[k], phs) && !holds_byte(parts[k], NL()) by {
        assert(stretch_of(parts[k], t));
        let x = choose|x: int| 0 <= x && x + parts[k].len() <= t.len() && #[trigger] t.subrange(x, x + parts[k].len()) == parts[k];
        lemma_clean_sub(t, phs, x, x + parts[k].len());
    }
    let nl = lines_of(q);
    let last = ls.last().push((parts[0], -1int));
    assert(nl =~= ls.update(ls.len() - 1, last) + Seq::new(
        (parts.len() - 1) as nat,
        |i: int| seq![(parts[i + 1], -1int)],
    ));
    assert(masked_line(last, phs)) by {
        assert forall|i: int| 0 <= i < last.len() implies (i % 2 == 0 ==> (#[trigger] last[i]).1 < 0 && clean(last[i].0, phs) && !holds_byte(last[i].0, NL()))
            && (i % 2 == 1 ==> 0 <= last[i].1 < phs.len()) by {
            if i < ls.last().len() {
                assert(last[i] == ls.last()[i]);
            }
        }
    }
    assert forall|i: int| 0 <= i < nl.len() implies masked_line(#[trigger] nl[i], phs) by {
        if i < ls.len() - 1 {
            assert(nl[i] == ls[i]);
        } else if i == ls.len() - 1 {
            assert(nl[i] == last);
        } else {
            let j = i - ls.len();
            assert(nl[i] == seq![(parts[j + 1], -1int)]);
            assert(clean(parts[j + 1], phs));
        }
    }
}

/// Adding a construct to closed lines opens the last one again.
proof fn lemma_lines_ph(p: Seq<(Seq<u8>, int)>, k: int, phs: Seq<Seq<u8>>)
    requires
        lines_ok(lines_of(p), phs, false),
        0 <= k < phs.len(),
    ensures
        lines_ok(lines_of(p.push((Seq::<u8>::empty(), k))), phs, true),
{
    let q = p.push((Seq::<u8>::empty(), k));
    assert(q.drop_last() =~= p);
    let ls = lines_of(p);
    let last = ls.last().push((Seq::<u8>::empty(), k));
    let nl = lines_of(q);
    assert(nl =~= ls.update(ls.len() - 1, last));
    assert forall|i: int| 0 <= i < nl.len() - 1 implies masked_line(#[trigger] nl[i], phs) by {
        assert(nl[i] == ls[i]);
    }
    assert forall|i: int| 0 <= i < last.len() implies (i % 2 == 0 ==> (#[trigger] last[i]).1 < 0 && clean(last[i].0, phs) && !holds_byte(last[i].0, NL()))
        && (i % 2 == 1 ==> 0 <= last[i].1 < phs.len()) by {
        if i < ls.last().len() {
            assert(last[i] == ls.last()[i]);
        }
    }
}

proof fn lemma_lines_pieces(b: Seq<u8>, spans: Seq<Span>, phs: Seq<Seq<u8>>, k: int)
    requires
        0 <= k <= spans.len(),
        spans_ok(b, spans),
        clean(b, phs),
        phs.len() == spans.len(),
    ensures
        lines_ok(lines_of(pieces_upto(b, spans, k)), phs, true),
    decreases k,
{
    if k == 0 {
        assert(lines_of(pieces_upto(b, spans, 0)) =~= seq![Seq::<(Seq<u8>, int)>::empty()]);
    } else {
        lemma_lines_pieces(b, spans, phs, k - 1);
        let p = pieces_upto(b, spans, k - 1);
        let c = cursor_before(spans, k - 1);
        let sp = spans[k - 1];
        assert(c <= sp.start <= sp.end <= b.len());
        let t = b.subrange(c, sp.start as int);
        lemma_clean_sub(b, phs, c, sp.start as int);
        lemma_lines_text(p, t, phs);
        lemma_lines_ph(p.push((t, -1int)), k - 1, phs);
    }
}

/// A masked line written out holds no line feed.
proof fn lemma_render_line(l: Seq<(Seq<u8>, int)>, phs: Seq<Seq<u8>>, f: spec_fn(int) -> Seq<u8>)
    requires
        forall|i: int| 0 <= i < l.len() ==> (#[trigger] l[i]).1 < 0 ==> !holds_byte(l[i].0, NL()),
        forall|i: int| 0 <= i < l.len() ==> (#[trigger] l[i]).1 >= 0 ==> !holds_byte(f(l[i].1), NL()),
    ensures
        !holds_byte(render(l, f), NL()),
    decreases l.len(),
{
    if l.len() > 0 {
        let r = l.drop_first();
        assert forall|i: int| 0 <= i < r.len() implies #[trigger] r[i] == l[i + 1] by {}
        lemma_render_line(r, phs, f);
        let x = piece_text(l[0], f);
        let y = render(r, f);
        assert(!holds_byte(x, NL()));
        if holds_byte(x + y, NL()) {
            let i = choose|i: int| 0 <= i < (x + y).len() && (x + y)[i] == NL();
            if i < x.len() {
                assert(x[i] == NL());
            } else {
                assert(y[i - x.len()] == NL());
            }
        }
    }
}

/// The masked document up to the `k`-th placeholder.
pub open spec fn masked_before(b: Seq<u8>, spans: Seq<Span>, m: Marks, k: int) -> Seq<u8> {
    masked_upto(b, spans, m, k) + b.subrange(cursor_before(spans, k), spans[k].start as int)
}

/// What the line of the masked document that the `k`-th placeholder sits on
/// holds in front of it.
pub open spec fn line_before_placeholder(b: Seq<u8>, spans: Seq<Span>, m: Marks, k: int) -> Seq<u8> {
    let x = masked_before(b, spans, m, k);
    x.subrange(line_start(x, x.len() as int), x.len() as int)
}

/// Whether the `k`-th construct comes back with the indentation it had: it
/// lies on one line, or the whitespace it sat behind in the document is the
/// indentation of the line its placeholder sits on in the masked document.
/// `restore` re-bases a construct that spans lines onto the indentation of
/// its placeholder's line, so these are the constructs it leaves as they
/// were; for the others the two indentations differ, and re-basing is what
/// `restore` is for.
pub open spec fn keeps_indent(b: Seq<u8>, spans: Seq<Span>, m: Marks, k: int) -> bool {
    ||| !holds_byte(blob_text(b, spans[k]), NL())
    ||| source_indent_spec(b, spans[k].start as int) == line_indent(line_before_placeholder(b, spans, m, k))
}

proof fn lemma_line_start_clear(x: Seq<u8>, j: int)
    requires
        0 <= j <= x.len(),
        forall|i: int| 0 <= i < j ==> x[i] != NL(),
    ensures
        line_start(x, j) == 0,
    decreases j,
{
    if j > 0 {
        lemma_line_start_clear(x, j - 1);
    }
}

proof fn lemma_line_start_after(a: Seq<u8>, y: Seq<u8>, j: int)
    requires
        0 <= j <= y.len(),
        forall|i: int| 0 <= i < y.len() ==> y[i] != NL(),
    ensures
        line_start(a.push(NL()) + y, a.len() + 1 + j) == a.len() + 1,
    decreases j,
{
    let x = a.push(NL()) + y;
    if j > 0 {
        assert(x[a.len() + j] == y[j - 1]);
        lemma_line_start_after(a, y, j - 1);
    } else {
        assert(x[a.len() as int] == NL());
    }
}

/// The last line of joined lines that hold no line feed starts where the
/// last of them does.
proof fn lemma_line_start_join(r: Seq<Seq<u8>>)
    requires
        r.len() >= 1,
        forall|k: int, j: int| 0 <= k < r.len() && 0 <= j < r[k].len() ==> r[k][j] != NL(),
    ensures
        ({
            let x = join(r, NL());
            x.subrange(line_start(x, x.len() as int), x.len() as int) == r.last()
        }),
{
    let x = join(r, NL());
    let y = r.last();
    assert(forall|i: int| 0 <= i < y.len() ==> y[i] == r[r.len() - 1][i]);
    if r.len() == 1 {
        lemma_line_start_clear(x, x.len() as int);
        assert(x.subrange(0, x.len() as int) =~= y);
    } else {
        let a = join(r.drop_last(), NL());
        assert(x == a.push(NL()) + y);
        lemma_line_start_after(a, y, y.len() as int);
        assert(x.subrange(a.len() + 1int, x.len() as int) =~= y);
    }
}

proof fn lemma_render_concat(p: Seq<(Seq<u8>, int)>, q: Seq<(Seq<u8>, int)>, f: spec_fn(int) -> Seq<u8>)
    ensures
        render(p + q, f) == render(p, f) + render(q, f),
    decreases p.len(),
{
    if p.len() == 0 {
        assert(p + q =~= q);
        assert(render(p, f) =~= Seq::<u8>::empty());
        assert(render(q, f) =~= render(p, f) + render(q, f));
    } else {
        lemma_render_concat(p.drop_first(), q, f);
        assert((p + q).drop_first() =~= p.drop_first() + q);
        assert((p + q)[0] == p[0]);
        assert(render(p + q, f) =~= render(p, f) + render(q, f));
    }
}

/// Whether each construct in the line has in front of it, on the line, what
/// the masked document's line holds in front of its placeholder.
pub open spec fn placed(l: Seq<(Seq<u8>, int)>, b: Seq<u8>, spans: Seq<Span>, m: Marks, fm: spec_fn(int) -> Seq<u8>) -> bool {
    forall|i: int|
        0 <= i < l.len() && (#[trigger] l[i]).1 >= 0 ==> render(l.subrange(0, i), fm) == line_before_placeholder(
            b,
            spans,
            m,
            l[i].1,
        )
}

pub open spec fn all_placed(
    ls: Seq<Seq<(Seq<u8>, int)>>,
    b: Seq<u8>,
    spans: Seq<Span>,
    m: Marks,
    fm: spec_fn(int) -> Seq<u8>,
) -> bool {
    forall|i: int| 0 <= i < ls.len() ==> placed(#[trigger] ls[i], b, spans, m, fm)
}

/// Adding text leaves what stands in front of each construct as it was.
proof fn lemma_placed_text(
    p: Seq<(Seq<u8>, int)>,
    t: Seq<u8>,
    b: Seq<u8>,
    spans: Seq<Span>,
    m: Marks,
    fm: spec_fn(int) -> Seq<u8>,
)
    requires
        all_placed(lines_of(p), b, spans, m, fm),
    ensures
        all_placed(lines_of(p.push((t, -1int))), b, spans, m, fm),
{
    let q = p.push((t, -1int));
    assert(q.drop_last() =~= p);
    let ls = lines_of(p);
    lemma_lines_of_len(p);
    let parts = split(t, NL());
    lemma_split_len(t, NL());
    let old = ls.last();
    let last = old.push((parts[0], -1int));
    let nl = lines_of(q);
    assert(nl =~= ls.update(ls.len() - 1, last) + Seq::new(
        (parts.len() - 1) as nat,
        |i: int| seq![(parts[i + 1], -1int)],
    ));
    assert forall|i: int| 0 <= i < nl.len() implies placed(#[trigger] nl[i], b, spans, m, fm) by {
        if i < ls.len() - 1 {
            assert(nl[i] == ls[i]);
        } else if i == ls.len() - 1 {
            assert(placed(old, b, spans, m, fm));
            assert forall|j: int| 0 <= j < last.len() && (#[trigger] last[j]).1 >= 0 implies render(last.subrange(0, j), fm)
                == line_before_placeholder(b, spans, m, last[j].1) by {
                assert(j < old.len());
                assert(last[j] == old[j]);
                assert(last.subrange(0, j) =~= old.subrange(0, j));
            }
        } else {
            let j = i - ls.len();
            assert(nl[i] == seq![(parts[j + 1], -1int)]);
        }
    }
}

/// In the lines of the document's pieces, each construct has in front of it
/// what the masked document's line holds in front of its placeholder.
proof fn lemma_placed_pieces(
    b: Seq<u8>,
    spans: Seq<Span>,
    m: Marks,
    phs: Seq<Seq<u8>>,
    fm: spec_fn(int) -> Seq<u8>,
    k: int,
)
    requires
        0 <= k <= spans.len(),
        spans_ok(b, spans),
        clean(b, phs),
        paired(m),
        phs.len() == spans.len(),
        forall|j: int| 0 <= j < spans.len() ==> #[trigger] phs[j] == placeholder_spec(m, j as nat, spans[j], blob_text(b, spans[j])),
        forall|j: int| 0 <= j < spans.len() ==> #[trigger] fm(j) == phs[j],
    ensures
        all_placed(lines_of(pieces_upto(b, spans, k)), b, spans, m, fm),
    decreases k,
{
    if k == 0 {
        assert(lines_of(pieces_upto(b, spans, 0)) =~= seq![Seq::<(Seq<u8>, int)>::empty()]);
    } else {
        lemma_placed_pieces(b, spans, m, phs, fm, k - 1);
        let p = pieces_upto(b, spans, k - 1);
        let c = cursor_before(spans, k - 1);
        assert(c <= spans[k - 1].start <= spans[k - 1].end <= b.len());
        let t = b.subrange(c, spans[k - 1].start as int);
        lemma_placed_text(p, t, b, spans, m, fm);
        let q = p.push((t, -1int));
        let x = (Seq::<u8>::empty(), k - 1);
        let r = q.push(x);
        assert(r.drop_last() =~= q);
        let ls = lines_of(q);
        lemma_lines_of_len(q);
        lemma_lines_pieces(b, spans, phs, k - 1);
        lemma_clean_sub(b, phs, c, spans[k - 1].start as int);
        lemma_lines_text(p, t, phs);
        let rr = rendered(ls, fm);
        assert forall|i: int, j: int| 0 <= i < rr.len() && 0 <= j < rr[i].len() implies rr[i][j] != NL() by {
            let l = ls[i];
            assert(masked_line(l, phs));
            assert forall|e: int| 0 <= e < l.len() implies (#[trigger] l[e]).1 >= 0 ==> !holds_byte(fm(l[e].1), NL()) by {
                if l[e].1 >= 0 {
                    lemma_ph_bytes(m, l[e].1 as nat, spans[l[e].1], blob_text(b, spans[l[e].1]));
                }
            }
            lemma_render_line(l, phs, fm);
            assert(rr[i] == render(l, fm));
        }
        lemma_line_start_join(rr);
        lemma_lines_join(q, fm);
        lemma_pieces_mask(b, spans, m, fm, k - 1);
        lemma_render_push(p, (t, -1int), fm);
        assert(join(rr, NL()) == masked_before(b, spans, m, k - 1));
        assert(rr.last() == render(ls.last(), fm));
        let old = ls.last();
        let last = old.push(x);
        let nl = lines_of(r);
        assert(nl =~= ls.update(ls.len() - 1, last));
        assert forall|i: int| 0 <= i < nl.len() implies placed(#[trigger] nl[i], b, spans, m, fm) by {
            if i < ls.len() - 1 {
                assert(nl[i] == ls[i]);
            } else {
                assert(placed(old, b, spans, m, fm));
                assert forall|j: int| 0 <= j < last.len() && (#[trigger] last[j]).1 >= 0 implies render(last.subrange(0, j), fm)
                    == line_before_placeholder(b, spans, m, last[j].1) by {
                    if j < old.len() {
                        assert(last[j] == old[j]);
                        assert(last.subrange(0, j) =~= old.subrange(0, j));
                    } else {
                        assert(last.subrange(0, j) =~= old);
                    }
                }
            }
        }
    }
}

proof fn lemma_indent_run_bounds(b: Seq<u8>, i: int)
    requires
        0 <= i <= b.len(),
    ensures
        i <= indent_run(b, i) <= b.len(),
    decreases b.len() - i,
{
    if i < b.len() && is_indent_byte(b[i]) {
        lemma_indent_run_bounds(b, i + 1);
    }
}

/// A line's indentation is that of its text before the first construct.
proof fn lemma_indent_run_prefix(seg: Seq<u8>, y: Seq<u8>, i: int)
    requires
        0 <= i <= seg.len(),
        y.len() > 0,
        !is_indent_byte(y[0]),
    ensures
        indent_run(seg + y, i) == indent_run(seg, i),
    decreases seg.len() - i,
{
    if i < seg.len() {
        assert((seg + y)[i] == seg[i]);
        lemma_indent_run_prefix(seg, y, i + 1);
    } else {
        assert((seg + y)[i] == y[0]);
    }
}

/// Restoring a masked document gives the document back: had comrak left
/// the masked document as it was, formatting would change nothing. No
/// placeholder is mistaken for another, none is found where the document
/// merely holds text, and every blob lands where its placeholder was, with
/// the indentation it had. This holds for every construct unless one that
/// spans lines sat behind other whitespace in the document than its
/// placeholder's line is indented with in the masked document (see
/// `keeps_indent`).
pub proof fn lemma_restore_undoes_mask(b: Seq<u8>, spans: Seq<Span>, m: Marks)
    requires
        spans_ok(b, spans),
        marks_ok(b, m),
        forall|k: int| 0 <= k < spans.len() ==> keeps_indent(b, spans, m, k),
    ensures
        restore_spec(mask_spec(b, spans, m), placeholders_spec(m, spans, blobs_spec(b, spans)), blobs_spec(b, spans))
            == b,
{
    let n = spans.len() as int;
    let blobs = blobs_spec(b, spans);
    let phs = placeholders_spec(m, spans, blobs);
    assert(paired(m));
    assert(placeholders_of(m, spans, blobs, phs));
    assert forall|j: int| 0 <= j < phs.len() implies !occurs(b, #[trigger] phs[j]) by {
        lemma_placeholders_absent(b, m, j as nat, spans[j], blobs[j].text);
    }
    let fm = |k: int| phs[k];
    let fx = |k: int| blobs[k].text;
    let pieces = pieces_of(b, spans);
    let ls = lines_of(pieces);
    lemma_pieces_mask(b, spans, m, fm, n);
    let c = cursor_before(spans, n);
    lemma_render_push(pieces_upto(b, spans, n), (b.subrange(c, b.len() as int), -1int), fm);
    let masked = mask_spec(b, spans, m);
    assert(render(pieces, fm) == masked);
    lemma_lines_join(pieces, fm);
    lemma_lines_pieces(b, spans, phs, n);
    lemma_pieces_input(b, spans, fx, n);
    lemma_clean_sub(b, phs, c, b.len() as int);
    lemma_lines_text(pieces_upto(b, spans, n), b.subrange(c, b.len() as int), phs);
    assert forall|i: int| 0 <= i < ls.len() implies masked_line(#[trigger] ls[i], phs) by {
        if i == ls.len() - 1 {
        }
    }
    let rm = rendered(ls, fm);
    lemma_lines_of_len(pieces);
    assert forall|k: int, j: int| 0 <= k < rm.len() && 0 <= j < rm[k].len() implies rm[k][j] != NL() by {
        let l = ls[k];
        assert(masked_line(l, phs));
        assert forall|i: int| 0 <= i < l.len() implies (#[trigger] l[i]).1 >= 0 ==> !holds_byte(fm(l[i].1), NL()) by {
            if l[i].1 >= 0 {
                lemma_ph_bytes(m, l[i].1 as nat, spans[l[i].1], blobs[l[i].1].text);
            }
        }
        lemma_render_line(l, phs, fm);
        assert(rm[k] == render(l, fm));
    }
    lemma_split_join(rm, NL());
    assert(split(masked, NL()) == rm);
    let rx = rendered(ls, fx);
    lemma_placed_pieces(b, spans, m, phs, fm, n);
    lemma_placed_text(pieces_upto(b, spans, n), b.subrange(c, b.len() as int), b, spans, m, fm);
    assert(all_placed(ls, b, spans, m, fm));
    assert forall|k: int| 0 <= k < rm.len() implies expand_spec(rm[k], phs, blobs, line_indent(rm[k])) == #[trigger] rx[k] by {
        let l = ls[k];
        let ind = line_indent(rm[k]);
        assert(placed(l, b, spans, m, fm));
        assert(masked_line(l, phs));
        assert forall|i: int| 0 <= i < l.len() && (#[trigger] l[i]).1 >= 0 implies fx(l[i].1) == reindent_spec(blobs[l[i].1], ind) by {
            let a = l[i].1;
            if holds_byte(blob_text(b, spans[a]), NL()) {
                let seg = render(l.subrange(0, i), fm);
                assert(seg == line_before_placeholder(b, spans, m, a));
                let tail = l.subrange(i, l.len() as int);
                assert(l =~= l.subrange(0, i) + tail);
                lemma_render_concat(l.subrange(0, i), tail, fm);
                let rest = render(tail.drop_first(), fm);
                assert(tail[0] == l[i]);
                assert(render(tail, fm) == phs[a] + rest);
                assert(rm[k] == render(l, fm));
                assert(render(l, fm) =~= seg + (phs[a] + rest));
                lemma_ph_bytes(m, a as nat, spans[a], blobs[a].text);
                assert((phs[a] + rest)[0] == phs[a][0]);
                lemma_indent_run_prefix(seg, phs[a] + rest, 0);
                lemma_indent_run_bounds(seg, 0);
                assert((seg + (phs[a] + rest)).subrange(0, indent_run(seg, 0)) =~= seg.subrange(0, indent_run(seg, 0)));
                assert(keeps_indent(b, spans, m, a));
                assert(ind =~= line_indent(seg));
            }
        }
        lemma_expand_line(l, m, spans, blobs, phs, ind, fm, fx);
    }
    assert(Seq::new(rm.len(), |k: int| expand_spec(rm[k], phs, blobs, line_indent(rm[k]))) =~= rx);
    lemma_lines_join(pieces, fx);
    lemma_pieces_render_input(b, spans, fx);
}

/// Restoring text that holds none of the placeholders leaves it as it is.
pub proof fn lemma_restore_without_placeholders(formatted: Seq<u8>, m: Marks, spans: Seq<Span>, blobs: Seq<BlobView>)
    requires
        spans.len() == blobs.len(),
        forall|k: int|
            0 <= k < spans.len() ==> !occurs(formatted, #[trigger] placeholders_spec(m, spans, blobs)[k]),
    ensures
        restore_spec(formatted, placeholders_spec(m, spans, blobs), blobs) == formatted,
{
    let phs = placeholders_spec(m, spans, blobs);
    assert forall|k: int| 0 <= k < phs.len() implies #[trigger] phs[k].len() > 0 by {
        lemma_placeholder_nonempty(m, k as nat, spans[k], blobs[k].text);
    }
    let lines = split(formatted, NL());
    lemma_split_sub(formatted, NL());
    lemma_join_split(formatted, NL());
    assert forall|k: int| 0 <= k < lines.len() implies expand_spec(lines[k], phs, blobs, line_indent(lines[k])) == #[trigger] lines[k] by {
        let l = lines[k];
        lemma_earliest(l, phs, phs.len() as int);
        if let Some((at, i)) = earliest(l, phs, phs.len() as int) {
            assert(stretch_of(l, formatted));
            let x = choose|x: int| 0 <= x && x + l.len() <= formatted.len() && #[trigger] formatted.subrange(x, x + l.len()) == l;
            assert(formatted.subrange(x + at, x + at + phs[i].len()) =~= l.subrange(at, at + phs[i].len()));
            assert(occurs_at(formatted, phs[i], x + at));
        }
    }
    assert(Seq::new(lines.len(), |k: int| expand_spec(lines[k], phs, blobs, line_indent(lines[k]))) =~= lines);
}

} // verus!
