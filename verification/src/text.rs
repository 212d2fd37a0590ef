//! Byte-level text handling shared by the formatter's passes.
//!
//! Every pass of the formatter reasons about its input in UTF-8 bytes, since
//! that is the unit comrak's source positions and Neovim's cursor columns are
//! measured in. The specifications here therefore describe text as `Seq<u8>`:
//! a `&str` by its `spec_bytes()`, a `String` by `encode_utf8` of its view.

use vstd::prelude::*;
use vstd::utf8::*;
use vstd::string::*;

verus! {

broadcast use vstd::utf8::group_utf8_lib;

/// Encoding a concatenation encodes each part in turn.
pub proof fn lemma_encode_concat(a: Seq<char>, b: Seq<char>)
    ensures
        encode_utf8(a + b) == encode_utf8(a) + encode_utf8(b),
    decreases a.len(),
{
    if a.len() == 0 {
        assert(a + b =~= b);
        assert(encode_utf8(a) + encode_utf8(b) =~= encode_utf8(b));
    } else {
        lemma_encode_concat(a.drop_first(), b);
        assert((a + b).drop_first() =~= a.drop_first() + b);
        assert((a + b)[0] == a[0]);
        assert(encode_scalar(a[0] as u32) + (encode_utf8(a.drop_first()) + encode_utf8(b))
            =~= (encode_scalar(a[0] as u32) + encode_utf8(a.drop_first())) + encode_utf8(b));
    }
}

/// An ASCII character encodes as the single byte of its code.
pub proof fn lemma_encode_ascii_char(c: char)
    requires
        (c as u32) < 0x80,
    ensures
        encode_utf8(seq![c]) == seq![c as u8],
{
    assert(is_ascii_chars(seq![c]));
    vstd::utf8::is_ascii_chars_encode_utf8(seq![c]);
    assert(encode_utf8(seq![c]) =~= seq![c as u8]);
}

/// In valid UTF-8, a position inside the sequence is a character boundary
/// exactly when no continuation byte sits there.
pub proof fn lemma_boundary_local(b: Seq<u8>, i: int)
    requires
        valid_utf8(b),
        0 <= i <= b.len(),
    ensures
        is_char_boundary(b, i) <==> (i == b.len() || !is_continuation_byte(b[i])),
{
    if i < b.len() {
        vstd::utf8::is_char_boundary_iff_not_is_continuation_byte(b, i);
    } else {
        vstd::utf8::is_char_boundary_start_end_of_seq(b);
    }
}

/// The position just past a whole character is a character boundary.
pub proof fn lemma_boundary_after_scalar(b: Seq<u8>, i: int)
    requires
        valid_utf8(b),
        0 <= i < b.len(),
        is_char_boundary(b, i),
    ensures
        ({
            let t = b.subrange(i, b.len() as int);
            let k = length_of_first_scalar(t);
            &&& 1 <= k <= t.len()
            &&& (is_leading_byte_width_1(b[i]) ==> k == 1)
            &&& (is_leading_byte_width_2(b[i]) ==> k == 2)
            &&& (is_leading_byte_width_3(b[i]) ==> k == 3)
            &&& (is_leading_byte_width_4(b[i]) ==> k == 4)
            &&& is_char_boundary(b, i + k)
        }),
{
    let t = b.subrange(i, b.len() as int);
    vstd::utf8::valid_utf8_split(b, i);
    assert(valid_utf8(t));
    assert(t[0] == b[i]);
    let k = length_of_first_scalar(t);
    let rest = pop_first_scalar(t);
    assert(valid_utf8(rest));
    lemma_boundary_local(b, i + k);
    if i + k < b.len() {
        assert(rest[0] == b[i + k]);
        assert(valid_first_scalar(rest));
    }
}


/// Valid UTF-8 found at a character boundary of valid UTF-8 ends at one.
pub proof fn lemma_occurs_end_boundary(b: Seq<u8>, p: Seq<u8>, at: int)
    requires
        valid_utf8(b),
        valid_utf8(p),
        0 <= at,
        at + p.len() <= b.len(),
        b.subrange(at, at + p.len()) == p,
        is_char_boundary(b, at),
    ensures
        is_char_boundary(b, at + p.len()),
    decreases p.len(),
{
    if p.len() > 0 {
        assert(b[at] == p[0]) by {
            assert(b.subrange(at, at + p.len())[0] == b[at]);
        }
        lemma_boundary_after_scalar(b, at);
        let w = length_of_first_scalar(p);
        let q = pop_first_scalar(p);
        assert(b.subrange(at + w, at + w + q.len()) =~= q);
        lemma_occurs_end_boundary(b, q, at + w);
    }
}

/// Nonempty valid UTF-8 found in valid UTF-8 starts and ends at character
/// boundaries.
pub proof fn lemma_occurs_boundary(b: Seq<u8>, p: Seq<u8>, at: int)
    requires
        valid_utf8(b),
        valid_utf8(p),
        p.len() > 0,
        0 <= at,
        at + p.len() <= b.len(),
        b.subrange(at, at + p.len()) == p,
    ensures
        is_char_boundary(b, at),
        is_char_boundary(b, at + p.len()),
{
    assert(b[at] == p[0]) by {
        assert(b.subrange(at, at + p.len())[0] == b[at]);
    }
    lemma_boundary_local(b, at);
    lemma_occurs_end_boundary(b, p, at);
}

/// The part of `s` between two byte offsets that are character boundaries.
pub fn slice(s: &str, from: usize, to: usize) -> (r: &str)
    requires
        from <= to <= s.spec_bytes().len(),
        is_char_boundary(s.spec_bytes(), from as int),
        is_char_boundary(s.spec_bytes(), to as int),
    ensures
        r.spec_bytes() == s.spec_bytes().subrange(from as int, to as int),
{
    let ghost b = s.spec_bytes();
    let (_, tail) = s.split_at(from);
    proof {
        let t = tail.spec_bytes();
        assert(t =~= b.subrange(from as int, b.len() as int));
        lemma_boundary_local(b, to as int);
        lemma_boundary_local(t, (to - from) as int);
        if to < b.len() {
            assert(t[(to - from) as int] == b[to as int]);
        }
    }
    let (r, _) = tail.split_at(to - from);
    proof {
        assert(r.spec_bytes() =~= b.subrange(from as int, to as int));
    }
    r
}

/// Append a character to a string: `String::push`.
#[verifier::external_body]
fn string_push(s: &mut String, c: char)
    ensures
        final(s)@ == old(s)@.push(c),
{
    s.push(c);
}

/// Append `piece` to `out`.
pub fn push_str(out: &mut String, piece: &str)
    ensures
        final(out)@ == old(out)@ + piece@,
        encode_utf8(final(out)@) == encode_utf8(old(out)@) + piece.spec_bytes(),
{
    out.append(piece);
    proof {
        lemma_encode_concat(old(out)@, piece@);
    }
}

/// Append an ASCII character to `out`.
pub fn push_ascii(out: &mut String, c: char)
    requires
        (c as u32) < 0x80,
    ensures
        final(out)@ == old(out)@.push(c),
        encode_utf8(final(out)@) == encode_utf8(old(out)@).push(c as u8),
{
    string_push(out, c);
    proof {
        assert(old(out)@.push(c) =~= old(out)@ + seq![c]);
        lemma_encode_concat(old(out)@, seq![c]);
        lemma_encode_ascii_char(c);
        assert(encode_utf8(old(out)@) + seq![c as u8] =~= encode_utf8(old(out)@).push(c as u8));
    }
}

/// A copy of `s` as an owned string.
pub fn owned(s: &str) -> (r: String)
    ensures
        r@ == s@,
        encode_utf8(r@) == s.spec_bytes(),
{
    s.to_owned()
}

/// Two strings are equal exactly when their bytes are.
pub proof fn lemma_bytes_eq(a: Seq<char>, b: Seq<char>)
    ensures
        (encode_utf8(a) == encode_utf8(b)) <==> (a == b),
{
    if encode_utf8(a) == encode_utf8(b) {
        vstd::utf8::encode_utf8_decode_utf8(a);
        vstd::utf8::encode_utf8_decode_utf8(b);
    }
}

/// Whether `a` and `b` hold the same text.
pub fn same(a: &str, b: &str) -> (r: bool)
    ensures
        r == (a@ == b@),
        r == (a.spec_bytes() == b.spec_bytes()),
{
    proof {
        lemma_bytes_eq(a@, b@);
    }
    let x = a.as_bytes();
    let y = b.as_bytes();
    if x.len() != y.len() {
        return false;
    }
    let mut i: usize = 0;
    while i < x.len()
        invariant
            x@ == a.spec_bytes(),
            y@ == b.spec_bytes(),
            x.len() == y.len(),
            i <= x.len(),
            forall|j: int| 0 <= j < i ==> x@[j] == y@[j],
        decreases x.len() - i,
    {
        if x[i] != y[i] {
            return false;
        }
        i = i + 1;
    }
    assert(x@ =~= y@);
    true
}


/// An ASCII whitespace byte: tab, line feed, vertical tab, form feed,
/// carriage return, or space.
pub open spec fn is_ascii_ws(x: u8) -> bool {
    (0x09 <= x && x <= 0x0d) || x == 0x20
}

/// The three-byte UTF-8 encodings of the Unicode `White_Space` characters:
/// U+1680, U+2000 to U+200A, U+2028, U+2029, U+202F, U+205F and U+3000.
pub open spec fn is_ws3(x: u8, y: u8, z: u8) -> bool {
    ||| (x == 0xe1 && y == 0x9a && z == 0x80)
    ||| (x == 0xe2 && y == 0x80 && ((0x80 <= z && z <= 0x8a) || z == 0xa8 || z == 0xa9 || z
        == 0xaf))
    ||| (x == 0xe2 && y == 0x81 && z == 0x9f)
    ||| (x == 0xe3 && y == 0x80 && z == 0x80)
}

/// The byte length of the whitespace character encoded at `i`, or 0 when
/// none starts there. Whitespace is what `char::is_whitespace` says it is:
/// the ASCII whitespace bytes, U+0085, U+00A0, and the three-byte ones above.
pub open spec fn ws_at(b: Seq<u8>, i: int) -> int {
    if 0 <= i < b.len() && is_ascii_ws(b[i]) {
        1
    } else if 0 <= i && i + 1 < b.len() && b[i] == 0xc2 && (b[i + 1] == 0x85 || b[i + 1] == 0xa0) {
        2
    } else if 0 <= i && i + 2 < b.len() && is_ws3(b[i], b[i + 1], b[i + 2]) {
        3
    } else {
        0
    }
}

/// The byte length of the whitespace character whose encoding ends at `j`
/// and starts no earlier than `lo`, or 0 when there is none.
pub open spec fn ws_before(b: Seq<u8>, lo: int, j: int) -> int {
    if 0 <= lo && lo + 1 <= j <= b.len() && is_ascii_ws(b[j - 1]) {
        1
    } else if 0 <= lo && lo + 2 <= j <= b.len() && b[j - 2] == 0xc2 && (b[j - 1] == 0x85 || b[j
        - 1] == 0xa0) {
        2
    } else if 0 <= lo && lo + 3 <= j <= b.len() && is_ws3(b[j - 3], b[j - 2], b[j - 1]) {
        3
    } else {
        0
    }
}

/// Where the run of whitespace starting at `i` ends.
pub open spec fn ws_run(b: Seq<u8>, i: int) -> int
    decreases b.len() - i,
{
    if 0 <= i < b.len() && ws_at(b, i) > 0 {
        ws_run(b, i + ws_at(b, i))
    } else {
        i
    }
}

/// Where the run of whitespace ending at `j`, and starting no earlier than
/// `lo`, begins.
pub open spec fn ws_back(b: Seq<u8>, lo: int, j: int) -> int
    decreases j,
{
    if 0 < j && ws_before(b, lo, j) > 0 {
        ws_back(b, lo, j - ws_before(b, lo, j))
    } else {
        j
    }
}

/// `b` with its leading whitespace removed: `str::trim_start`.
pub open spec fn trim_start(b: Seq<u8>) -> Seq<u8> {
    b.subrange(ws_run(b, 0), b.len() as int)
}

/// `b` with its trailing whitespace removed: `str::trim_end`.
pub open spec fn trim_end(b: Seq<u8>) -> Seq<u8> {
    b.subrange(0, ws_back(b, 0, b.len() as int))
}

/// `b` with whitespace removed from both ends: `str::trim`.
pub open spec fn trim(b: Seq<u8>) -> Seq<u8> {
    trim_end(trim_start(b))
}

/// Whether `b` holds nothing but whitespace: `str::trim().is_empty()`.
pub open spec fn is_blank(b: Seq<u8>) -> bool {
    ws_run(b, 0) == b.len()
}

pub proof fn lemma_ws_run_bounds(b: Seq<u8>, i: int)
    requires
        0 <= i <= b.len(),
    ensures
        i <= ws_run(b, i) <= b.len(),
    decreases b.len() - i,
{
    if 0 <= i < b.len() && ws_at(b, i) > 0 {
        lemma_ws_run_bounds(b, i + ws_at(b, i));
    }
}

pub proof fn lemma_ws_back_bounds(b: Seq<u8>, lo: int, j: int)
    requires
        0 <= lo <= j <= b.len(),
    ensures
        lo <= ws_back(b, lo, j) <= j,
    decreases j,
{
    if 0 < j && ws_before(b, lo, j) > 0 {
        lemma_ws_back_bounds(b, lo, j - ws_before(b, lo, j));
    }
}

/// A whitespace run that starts at a character boundary ends at one.
pub proof fn lemma_ws_run_boundary(b: Seq<u8>, i: int)
    requires
        valid_utf8(b),
        0 <= i <= b.len(),
        is_char_boundary(b, i),
    ensures
        is_char_boundary(b, ws_run(b, i)),
    decreases b.len() - i,
{
    if 0 <= i < b.len() && ws_at(b, i) > 0 {
        lemma_boundary_after_scalar(b, i);
        lemma_ws_run_boundary(b, i + ws_at(b, i));
    }
}

/// A whitespace run found by walking back from a character boundary starts
/// at one.
pub proof fn lemma_ws_back_boundary(b: Seq<u8>, lo: int, j: int)
    requires
        valid_utf8(b),
        0 <= lo <= j <= b.len(),
        is_char_boundary(b, j),
    ensures
        is_char_boundary(b, ws_back(b, lo, j)),
    decreases j,
{
    if 0 < j && ws_before(b, lo, j) > 0 {
        let k = ws_before(b, lo, j);
        lemma_boundary_local(b, j - k);
        lemma_ws_back_boundary(b, lo, j - k);
    }
}

/// The length of the whitespace character encoded at `i`.
pub fn ws_len_at(b: &[u8], i: usize) -> (k: usize)
    ensures
        k == ws_at(b@, i as int),
{
    let n = b.len();
    if i < n && ((0x09 <= b[i] && b[i] <= 0x0d) || b[i] == 0x20) {
        1
    } else if i < n && n - i >= 2 && b[i] == 0xc2 && (b[i + 1] == 0x85 || b[i + 1] == 0xa0) {
        2
    } else if i < n && n - i >= 3 && ((b[i] == 0xe1 && b[i + 1] == 0x9a && b[i + 2] == 0x80) || (
    b[i] == 0xe2 && b[i + 1] == 0x80 && ((0x80 <= b[i + 2] && b[i + 2] <= 0x8a) || b[i + 2] == 0xa8
        || b[i + 2] == 0xa9 || b[i + 2] == 0xaf)) || (b[i] == 0xe2 && b[i + 1] == 0x81 && b[i + 2]
        == 0x9f) || (b[i] == 0xe3 && b[i + 1] == 0x80 && b[i + 2] == 0x80)) {
        3
    } else {
        0
    }
}

/// The length of the whitespace character ending at `j` and starting no
/// earlier than `lo`.
pub fn ws_len_before(b: &[u8], lo: usize, j: usize) -> (k: usize)
    requires
        lo <= j <= b@.len(),
    ensures
        k == ws_before(b@, lo as int, j as int),
{
    let d = j - lo;
    if d >= 1 && ((0x09 <= b[j - 1] && b[j - 1] <= 0x0d) || b[j - 1] == 0x20) {
        1
    } else if d >= 2 && b[j - 2] == 0xc2 && (b[j - 1] == 0x85 || b[j - 1] == 0xa0) {
        2
    } else if d >= 3 && ((b[j - 3] == 0xe1 && b[j - 2] == 0x9a && b[j - 1] == 0x80) || (b[j - 3]
        == 0xe2 && b[j - 2] == 0x80 && ((0x80 <= b[j - 1] && b[j - 1] <= 0x8a) || b[j - 1] == 0xa8
        || b[j - 1] == 0xa9 || b[j - 1] == 0xaf)) || (b[j - 3] == 0xe2 && b[j - 2] == 0x81 && b[j
        - 1] == 0x9f) || (b[j - 3] == 0xe3 && b[j - 2] == 0x80 && b[j - 1] == 0x80)) {
        3
    } else {
        0
    }
}

/// Where the run of whitespace starting at `i` ends.
pub fn skip_ws(b: &[u8], i: usize) -> (e: usize)
    requires
        i <= b@.len(),
    ensures
        e == ws_run(b@, i as int),
        i <= e <= b@.len(),
{
    let mut j = i;
    proof {
        lemma_ws_run_bounds(b@, i as int);
    }
    loop
        invariant
            i <= j <= b@.len(),
            ws_run(b@, i as int) == ws_run(b@, j as int),
        decreases b@.len() - j,
    {
        let k = ws_len_at(b, j);
        if j >= b.len() || k == 0 {
            return j;
        }
        j = j + k;
    }
}

/// Where the run of whitespace ending at `j`, and starting no earlier than
/// `lo`, begins.
pub fn back_ws(b: &[u8], lo: usize, j: usize) -> (s: usize)
    requires
        lo <= j <= b@.len(),
    ensures
        s == ws_back(b@, lo as int, j as int),
        lo <= s <= j,
{
    let mut k = j;
    proof {
        lemma_ws_back_bounds(b@, lo as int, j as int);
    }
    loop
        invariant
            lo <= k <= j <= b@.len(),
            ws_back(b@, lo as int, j as int) == ws_back(b@, lo as int, k as int),
        decreases k,
    {
        let w = ws_len_before(b, lo, k);
        if k == 0 || w == 0 {
            return k;
        }
        k = k - w;
    }
}


/// `b` cut at every `sep` byte, as `str::split` cuts it: the pieces between
/// separators, including the empty piece after a trailing one.
pub open spec fn split(b: Seq<u8>, sep: u8) -> Seq<Seq<u8>>
    decreases b.len(),
{
    if b.len() == 0 {
        seq![Seq::<u8>::empty()]
    } else {
        let prev = split(b.drop_last(), sep);
        if b.last() == sep {
            prev.push(Seq::<u8>::empty())
        } else {
            prev.update(prev.len() - 1, prev.last().push(b.last()))
        }
    }
}

/// The pieces joined back together with `sep` between each two.
pub open spec fn join(pieces: Seq<Seq<u8>>, sep: u8) -> Seq<u8>
    decreases pieces.len(),
{
    if pieces.len() == 0 {
        Seq::<u8>::empty()
    } else if pieces.len() == 1 {
        pieces[0]
    } else {
        join(pieces.drop_last(), sep).push(sep) + pieces.last()
    }
}

pub proof fn lemma_split_len(b: Seq<u8>, sep: u8)
    ensures
        split(b, sep).len() >= 1,
    decreases b.len(),
{
    if b.len() > 0 {
        lemma_split_len(b.drop_last(), sep);
    }
}

/// No piece of a split holds the separator.
pub proof fn lemma_split_pieces(b: Seq<u8>, sep: u8)
    ensures
        forall|k: int, j: int|
            0 <= k < split(b, sep).len() && 0 <= j < split(b, sep)[k].len() ==> split(b, sep)[k][j]
                != sep,
    decreases b.len(),
{
    lemma_split_len(b, sep);
    if b.len() > 0 {
        lemma_split_pieces(b.drop_last(), sep);
        lemma_split_len(b.drop_last(), sep);
        let prev = split(b.drop_last(), sep);
        if b.last() != sep {
            assert forall|k: int, j: int|
                0 <= k < split(b, sep).len() && 0 <= j < split(b, sep)[k].len() implies split(
                b,
                sep,
            )[k][j] != sep by {
                if k == prev.len() - 1 && j == prev.last().len() {
                } else if k == prev.len() - 1 {
                    assert(split(b, sep)[k][j] == prev[k][j]);
                }
            }
        }
    }
}

/// No piece of a split is longer than what was split.
pub proof fn lemma_split_piece_len(b: Seq<u8>, sep: u8)
    ensures
        forall|k: int| 0 <= k < split(b, sep).len() ==> #[trigger] split(b, sep)[k].len() <= b.len(),
    decreases b.len(),
{
    lemma_split_len(b, sep);
    if b.len() > 0 {
        lemma_split_piece_len(b.drop_last(), sep);
        lemma_split_len(b.drop_last(), sep);
    }
}

/// Splitting and joining again gives back what was split.
pub proof fn lemma_join_split(b: Seq<u8>, sep: u8)
    ensures
        join(split(b, sep), sep) == b,
    decreases b.len(),
{
    if b.len() == 0 {
    } else {
        lemma_join_split(b.drop_last(), sep);
        lemma_split_len(b.drop_last(), sep);
        let prev = split(b.drop_last(), sep);
        if b.last() == sep {
            assert(split(b, sep).drop_last() =~= prev);
            assert(b =~= b.drop_last().push(sep) + Seq::<u8>::empty());
        } else {
            let cur = split(b, sep);
            if prev.len() == 1 {
                assert(b =~= prev[0].push(b.last()));
            } else {
                assert(cur.drop_last() =~= prev.drop_last());
                let x = join(prev.drop_last(), sep).push(sep);
                assert(join(prev, sep) == x + prev.last());
                assert(cur.last() == prev.last().push(b.last()));
                assert(join(cur, sep) == join(cur.drop_last(), sep).push(sep) + cur.last());
                assert(b =~= b.drop_last().push(b.last()));
                assert((x + prev.last()).push(b.last()) =~= x + prev.last().push(b.last()));
            }
        }
    }
}

/// Joining pieces that hold no separator, and splitting again, gives back
/// the pieces.
pub proof fn lemma_split_join(pieces: Seq<Seq<u8>>, sep: u8)
    requires
        pieces.len() >= 1,
        forall|k: int, j: int| 0 <= k < pieces.len() && 0 <= j < pieces[k].len() ==> pieces[k][j] != sep,
    ensures
        split(join(pieces, sep), sep) == pieces,
    decreases pieces.len(),
{
    if pieces.len() == 1 {
        lemma_split_one(pieces[0], sep);
        assert(seq![pieces[0]] =~= pieces);
    } else {
        let init = pieces.drop_last();
        assert forall|k: int, j: int| 0 <= k < init.len() && 0 <= j < init[k].len() implies init[k][j] != sep by {
            assert(init[k] == pieces[k]);
        }
        lemma_split_join(init, sep);
        lemma_split_append(join(init, sep), pieces.last(), sep);
        assert(init.push(pieces.last()) =~= pieces);
    }
}

/// A piece that holds no separator splits into itself.
pub proof fn lemma_split_one(p: Seq<u8>, sep: u8)
    requires
        forall|j: int| 0 <= j < p.len() ==> p[j] != sep,
    ensures
        split(p, sep) == seq![p],
    decreases p.len(),
{
    if p.len() == 0 {
        assert(p =~= Seq::<u8>::empty());
    } else {
        assert(forall|j: int| 0 <= j < p.drop_last().len() ==> p.drop_last()[j] == p[j]);
        lemma_split_one(p.drop_last(), sep);
        assert(p.last() != sep);
        assert(p.drop_last().push(p.last()) =~= p);
        let prev = split(p.drop_last(), sep);
        assert(split(p, sep) == prev.update(prev.len() - 1, prev.last().push(p.last())));
        assert(seq![p.drop_last()].update(0, p.drop_last().push(p.last())) =~= seq![p]);
    }
}

/// Splitting `a`, a separator, and `p` (which holds none) adds `p` as a
/// piece of its own after those of `a`.
pub proof fn lemma_split_append(a: Seq<u8>, p: Seq<u8>, sep: u8)
    requires
        forall|j: int| 0 <= j < p.len() ==> p[j] != sep,
    ensures
        split(a.push(sep) + p, sep) == split(a, sep).push(p),
    decreases p.len(),
{
    if p.len() == 0 {
        assert(a.push(sep) + p =~= a.push(sep));
        assert((a.push(sep)).drop_last() =~= a);
        assert(p =~= Seq::<u8>::empty());
        assert(split(a.push(sep), sep) == split(a, sep).push(Seq::<u8>::empty()));
    } else {
        assert(forall|j: int| 0 <= j < p.drop_last().len() ==> p.drop_last()[j] == p[j]);
        lemma_split_append(a, p.drop_last(), sep);
        assert(p.last() != sep);
        assert((a.push(sep) + p).drop_last() =~= a.push(sep) + p.drop_last());
        assert((a.push(sep) + p).last() == p.last());
        lemma_split_len(a, sep);
        assert(p.drop_last().push(p.last()) =~= p);
        let prev = split(a.push(sep) + p.drop_last(), sep);
        assert(split(a.push(sep) + p, sep) == prev.update(prev.len() - 1, prev.last().push(p.last())));
        assert(split(a, sep).push(p.drop_last()).update(
            split(a, sep).len() as int,
            p.drop_last().push(p.last()),
        ) =~= split(a, sep).push(p));
    }
}

/// The lines of `s`, cut at each `\n` the way `str::split('\n')` cuts them.
pub fn split_lines(s: &str) -> (lines: Vec<&str>)
    ensures
        lines@.map_values(|l: &str| l.spec_bytes()) == split(s.spec_bytes(), 0x0a),
        lines@.len() >= 1,
{
    let b = s.as_bytes();
    let ghost bs = s.spec_bytes();
    let mut lines: Vec<&str> = Vec::new();
    let mut start: usize = 0;
    let mut i: usize = 0;
    proof {
        lemma_boundary_local(bs, 0);
        assert(bs.subrange(0, 0) =~= Seq::<u8>::empty());
        assert(lines@.map_values(|l: &str| l.spec_bytes()) =~= Seq::<Seq<u8>>::empty());
        assert(Seq::<Seq<u8>>::empty().push(Seq::<u8>::empty()) =~= seq![Seq::<u8>::empty()]);
    }
    while i < b.len()
        invariant
            b@ == bs,
            bs == s.spec_bytes(),
            valid_utf8(bs),
            start <= i <= bs.len(),
            is_char_boundary(bs, start as int),
            lines@.map_values(|l: &str| l.spec_bytes()).push(bs.subrange(start as int, i as int))
                == split(bs.subrange(0, i as int), 0x0a),
        decreases bs.len() - i,
    {
        let ghost before = lines@.map_values(|l: &str| l.spec_bytes());
        assert(bs.subrange(0, i + 1).drop_last() =~= bs.subrange(0, i as int));
        assert(bs.subrange(0, i + 1).last() == bs[i as int]);
        if b[i] == 0x0a {
            proof {
                lemma_boundary_local(bs, i as int);
                lemma_boundary_after_scalar(bs, i as int);
            }
            let line = slice(s, start, i);
            lines.push(line);
            start = i + 1;
            assert(lines@.map_values(|l: &str| l.spec_bytes()) =~= split(
                bs.subrange(0, i as int),
                0x0a,
            ));
            assert(bs.subrange(start as int, i + 1) =~= Seq::<u8>::empty());
        } else {
            assert(bs.subrange(start as int, i + 1) =~= bs.subrange(start as int, i as int).push(
                bs[i as int],
            ));
            proof {
                lemma_split_len(bs.subrange(0, i as int), 0x0a);
            }
            assert(before.push(bs.subrange(start as int, i + 1)) =~= split(
                bs.subrange(0, i as int),
                0x0a,
            ).update(before.len() as int, bs.subrange(start as int, i as int).push(bs[i as int])));
        }
        i = i + 1;
    }
    proof {
        lemma_boundary_local(bs, bs.len() as int);
    }
    let line = slice(s, start, b.len());
    lines.push(line);
    assert(bs.subrange(0, bs.len() as int) =~= bs);
    lines
}


/// Append any character to `out`.
pub fn push_char(out: &mut String, c: char)
    ensures
        final(out)@ == old(out)@.push(c),
        encode_utf8(final(out)@) == encode_utf8(old(out)@) + encode_utf8(seq![c]),
{
    string_push(out, c);
    proof {
        assert(old(out)@.push(c) =~= old(out)@ + seq![c]);
        lemma_encode_concat(old(out)@, seq![c]);
    }
}

/// Whether `needle` occurs in `hay` at `i`.
pub open spec fn occurs_at(hay: Seq<u8>, needle: Seq<u8>, i: int) -> bool {
    0 <= i && i + needle.len() <= hay.len() && hay.subrange(i, i + needle.len()) == needle
}

/// Whether `needle` occurs in `hay`.
pub open spec fn occurs(hay: Seq<u8>, needle: Seq<u8>) -> bool {
    exists|i: int| occurs_at(hay, needle, i)
}

/// The first place `needle` occurs in `hay`, at or after `i`.
pub open spec fn find_from(hay: Seq<u8>, needle: Seq<u8>, i: int) -> Option<int>
    decreases hay.len() + 1 - i,
{
    if i < 0 || i + needle.len() > hay.len() {
        None
    } else if occurs_at(hay, needle, i) {
        Some(i)
    } else {
        find_from(hay, needle, i + 1)
    }
}

pub proof fn lemma_find_from(hay: Seq<u8>, needle: Seq<u8>, i: int)
    requires
        0 <= i,
    ensures
        match find_from(hay, needle, i) {
            Some(k) => i <= k && occurs_at(hay, needle, k) && forall|j: int| i <= j < k ==> !occurs_at(hay, needle, j),
            None => forall|j: int| i <= j ==> !occurs_at(hay, needle, j),
        },
    decreases hay.len() + 1 - i,
{
    if i + needle.len() > hay.len() {
    } else if occurs_at(hay, needle, i) {
    } else {
        lemma_find_from(hay, needle, i + 1);
    }
}

/// Whether `needle` occurs in `hay` at `i`.
pub fn matches_at(hay: &[u8], needle: &[u8], i: usize) -> (r: bool)
    ensures
        r == occurs_at(hay@, needle@, i as int),
{
    let n = hay.len();
    if i > n || needle.len() > n - i {
        return false;
    }
    let mut j: usize = 0;
    while j < needle.len()
        invariant
            n == hay@.len(),
            i + needle@.len() <= hay@.len(),
            j <= needle@.len(),
            forall|k: int| 0 <= k < j ==> hay@[i + k] == needle@[k],
        decreases needle@.len() - j,
    {
        if hay[i + j] != needle[j] {
            assert(hay@.subrange(i as int, i + needle@.len())[j as int] != needle@[j as int]);
            return false;
        }
        j = j + 1;
    }
    assert(hay@.subrange(i as int, i + needle@.len()) =~= needle@);
    true
}

/// The first place `needle` occurs in `hay` at or after `from`.
pub fn find_bytes(hay: &[u8], needle: &[u8], from: usize) -> (r: Option<usize>)
    ensures
        match r {
            Some(k) => find_from(hay@, needle@, from as int) == Some(k as int),
            None => find_from(hay@, needle@, from as int) is None,
        },
{
    let mut i = from;
    loop
        invariant
            from <= i,
            find_from(hay@, needle@, from as int) == find_from(hay@, needle@, i as int),
        decreases hay@.len() + 1 - i,
    {
        if i > hay.len() || needle.len() > hay.len() - i {
            return None;
        }
        if matches_at(hay, needle, i) {
            return Some(i);
        }
        if needle.len() == 0 {
            assert(hay@.subrange(i as int, i as int) =~= needle@);
        }
        i = i + 1;
    }
}

/// Whether `needle` occurs in `hay`.
pub fn contains_bytes(hay: &[u8], needle: &[u8]) -> (r: bool)
    ensures
        r == occurs(hay@, needle@),
{
    let f = find_bytes(hay, needle, 0);
    proof {
        lemma_find_from(hay@, needle@, 0);
    }
    f.is_some()
}

/// `b` with every occurrence of `from`, taken from left to right without
/// overlap, replaced by `to`: `str::replace` with a nonempty pattern.
pub open spec fn replace_spec(b: Seq<u8>, from: Seq<u8>, to: Seq<u8>) -> Seq<u8>
    decreases b.len(),
    when from.len() > 0
{
    match find_from(b, from, 0) {
        None => b,
        Some(at) => {
            proof {
                lemma_find_from(b, from, 0);
            }
            b.subrange(0, at) + to + replace_spec(b.subrange(at + from.len(), b.len() as int), from, to)
        },
    }
}

/// `s` with every occurrence of `from` replaced by `to`.
pub fn replace_all(s: &str, from: &str, to: &str) -> (r: String)
    requires
        from.spec_bytes().len() > 0,
    ensures
        encode_utf8(r@) == replace_spec(s.spec_bytes(), from.spec_bytes(), to.spec_bytes()),
{
    let ghost fb = from.spec_bytes();
    let ghost tb = to.spec_bytes();
    let pat = from.as_bytes();
    let mut out = String::new();
    let mut rest: &str = s;
    assert(encode_utf8(out@) =~= Seq::<u8>::empty());
    loop
        invariant
            pat@ == fb,
            fb == from.spec_bytes(),
            fb.len() > 0,
            tb == to.spec_bytes(),
            encode_utf8(out@) + replace_spec(rest.spec_bytes(), fb, tb) == replace_spec(s.spec_bytes(), fb, tb),
        decreases rest.spec_bytes().len(),
    {
        let rb = rest.as_bytes();
        match find_bytes(rb, pat, 0) {
            None => {
                push_str(&mut out, rest);
                return out;
            },
            Some(at) => {
                proof {
                    lemma_find_from(rb@, fb, 0);
                    assert(occurs_at(rb@, fb, at as int));
                    lemma_occurs_boundary(rb@, fb, at as int);
                    vstd::utf8::is_char_boundary_start_end_of_seq(rb@);
                }
                let n = rb.len();
                let end = at + pat.len();
                let ghost before = encode_utf8(out@);
                let ghost tail = rb@.subrange(at + fb.len(), rb@.len() as int);
                push_str(&mut out, slice(rest, 0, at));
                push_str(&mut out, to);
                rest = slice(rest, end, n);
                assert(encode_utf8(out@) + replace_spec(rest.spec_bytes(), fb, tb) =~= before + (rb@.subrange(0, at as int) + tb + replace_spec(tail, fb, tb)));
            },
        }
    }
}

/// The decimal digits of `n`, as `format!("{n}")` writes them.
pub open spec fn decimal(n: nat) -> Seq<u8>
    decreases n,
{
    if n < 10 {
        seq![(0x30 + n) as u8]
    } else {
        decimal(n / 10).push((0x30 + n % 10) as u8)
    }
}

pub proof fn lemma_decimal_digits(n: nat)
    ensures
        decimal(n).len() >= 1,
        forall|i: int| 0 <= i < decimal(n).len() ==> 0x30 <= #[trigger] decimal(n)[i] <= 0x39,
    decreases n,
{
    if n >= 10 {
        lemma_decimal_digits(n / 10);
    }
}

/// Append the decimal digits of `n` to `out`.
pub fn push_decimal(out: &mut String, n: usize)
    ensures
        encode_utf8(final(out)@) == encode_utf8(old(out)@) + decimal(n as nat),
    decreases n,
{
    if n >= 10 {
        push_decimal(out, n / 10);
    }
    let d = (n % 10) as u8;
    let c = (0x30u8 + d) as char;
    push_ascii(out, c);
    proof {
        if n >= 10 {
            assert(encode_utf8(old(out)@) + decimal((n / 10) as nat) + seq![c as u8] =~= encode_utf8(old(out)@) + decimal(n as nat));
        }
        assert((encode_utf8(old(out)@) + decimal(n as nat)) =~= encode_utf8(final(out)@)) by {
            if n < 10 {
                assert(decimal(n as nat) =~= seq![c as u8]);
            }
        }
    }
}


/// An injective map from `n` numbers into `m` slots needs `n <= m` of them.
pub proof fn lemma_pigeonhole(n: int, m: int, f: spec_fn(int) -> int)
    requires
        0 <= n,
        0 <= m,
        forall|i: int| 0 <= i < n ==> 0 <= #[trigger] f(i) < m,
        forall|i: int, j: int| 0 <= i < n && 0 <= j < n && #[trigger] f(i) == #[trigger] f(j) ==> i == j,
    ensures
        n <= m,
{
    let x = vstd::set_lib::set_int_range(0, n);
    let z = vstd::set_lib::set_int_range(0, m);
    let y = x.map(f);
    vstd::set_lib::lemma_int_range(0, n);
    vstd::set_lib::lemma_int_range(0, m);
    assert(vstd::relations::injective_on(f, x));
    vstd::set_lib::lemma_map_size(x, y, f);
    assert(y.subset_of(z)) by {
        assert forall|v: int| y.contains(v) implies z.contains(v) by {
            let i = choose|i: int| x.contains(i) && f(i) == v;
        }
    }
    vstd::set_lib::lemma_len_subset(y, z);
}

/// Different numbers have different decimal digits.
pub proof fn lemma_decimal_injective(i: nat, j: nat)
    requires
        decimal(i) == decimal(j),
    ensures
        i == j,
    decreases i,
{
    lemma_decimal_digits(i);
    lemma_decimal_digits(j);
    if i < 10 && j < 10 {
        assert(decimal(i) == seq![(0x30 + i) as u8]);
        assert(decimal(j) == seq![(0x30 + j) as u8]);
        let x = ((0x30 + i) as u8);
        let y = ((0x30 + j) as u8);
        assert(seq![x][0] == x);
        assert(seq![y][0] == y);
        assert(x == y);
    } else if i < 10 {
        lemma_decimal_digits(j / 10);
        assert(decimal(j).len() >= 2);
    } else if j < 10 {
        lemma_decimal_digits(i / 10);
        assert(decimal(i).len() >= 2);
    } else {
        assert(decimal(i).drop_last() =~= decimal(i / 10));
        assert(decimal(j).drop_last() =~= decimal(j / 10));
        lemma_decimal_injective(i / 10, j / 10);
        assert(decimal(i) == decimal(i / 10).push((0x30 + i % 10) as u8));
        assert(decimal(j) == decimal(j / 10).push((0x30 + j % 10) as u8));
        let x = ((0x30 + i % 10) as u8);
        let y = ((0x30 + j % 10) as u8);
        assert(decimal(i / 10).push(x).last() == x);
        assert(decimal(j / 10).push(y).last() == y);
        assert(x == y);
        assert(i % 10 < 10 && j % 10 < 10) by (nonlinear_arith);
        assert(i % 10 == j % 10);
        vstd::arithmetic::div_mod::lemma_fundamental_div_mod(i as int, 10);
        vstd::arithmetic::div_mod::lemma_fundamental_div_mod(j as int, 10);
    }
}

} // verus!
