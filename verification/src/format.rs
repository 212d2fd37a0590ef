//! The CommonMark half of the formatter: the settings a document is read
//! with, and the entry point that dispatches to the MDX pipeline when asked.

use comrak::options::{Extension, Render};
use comrak::{Arena, Options, format_commonmark, parse_document};
use vstd::prelude::*;
use vstd::string::*;
use vstd::utf8::*;

use crate::text::{
    back_ws, owned, is_blank, join, lemma_join_split, lemma_split_join, lemma_split_len, lemma_split_piece_len, lemma_split_pieces,
    lemma_ws_run_bounds, push_ascii, push_str, skip_ws,
    split, split_lines, trim_end, trim_start, ws_run,
};

verus! {

/// How a document is read and written.
#[derive(Debug, Clone)]
pub struct Settings {
    /// Parse MDX constructs and hold them out of comrak's reach.
    pub mdx: bool,
    /// Column to wrap prose at. 0 leaves line breaks alone.
    pub width: usize,
    /// Frontmatter fence, or None to treat a leading `---` as ordinary
    /// Markdown.
    pub frontmatter: Option<String>,
}

/// What a `Settings` holds, as plain values.
pub struct SettingsView {
    pub mdx: bool,
    pub width: usize,
    pub frontmatter: Option<Seq<char>>,
}

impl View for Settings {
    type V = SettingsView;

    open spec fn view(&self) -> SettingsView {
        SettingsView {
            mdx: self.mdx,
            width: self.width,
            frontmatter: match self.frontmatter {
                Some(f) => Some(f@),
                None => None,
            },
        }
    }
}

/// The settings a document is formatted with when nothing else is asked
/// for: plain Markdown, wrapped at 80 columns, with `---` frontmatter.
pub open spec fn default_settings() -> SettingsView {
    SettingsView { mdx: false, width: 80, frontmatter: Some("---"@) }
}

impl Default for Settings {
    fn default() -> (s: Self)
        ensures
            s@ == default_settings(),
    {
        let fence = owned("---");
        Settings { mdx: false, width: 80, frontmatter: Some(fence) }
    }
}


/// The comrak configuration a document is read and written with, as plain
/// values. Table realignment reads the buffer with exactly these, so that
/// both halves of the crate agree on what is and is not a table.
pub struct ParseConfig {
    pub table: bool,
    pub strikethrough: bool,
    pub tasklist: bool,
    pub alerts: bool,
    pub autolink: bool,
    pub footnotes: bool,
    pub math_dollars: bool,
    pub front_matter: Option<String>,
    pub width: usize,
    pub prefer_fenced: bool,
}

pub struct ParseConfigView {
    pub table: bool,
    pub strikethrough: bool,
    pub tasklist: bool,
    pub alerts: bool,
    pub autolink: bool,
    pub footnotes: bool,
    pub math_dollars: bool,
    pub front_matter: Option<Seq<char>>,
    pub width: usize,
    pub prefer_fenced: bool,
}

impl View for ParseConfig {
    type V = ParseConfigView;

    open spec fn view(&self) -> ParseConfigView {
        ParseConfigView {
            table: self.table,
            strikethrough: self.strikethrough,
            tasklist: self.tasklist,
            alerts: self.alerts,
            autolink: self.autolink,
            footnotes: self.footnotes,
            math_dollars: self.math_dollars,
            front_matter: match self.front_matter {
                Some(f) => Some(f@),
                None => None,
            },
            width: self.width,
            prefer_fenced: self.prefer_fenced,
        }
    }
}

/// The configuration for `settings`: the GFM extensions (tables,
/// strikethrough, task lists, alerts, footnotes, dollar math) on; GFM
/// autolinks only outside MDX, since they render bare URLs back out as
/// `<url>`, which an MDX parser reads as the start of a JSX tag; the
/// frontmatter fence and wrap width as the settings say; and fenced code
/// blocks preferred, since indented ones lose their language and collide
/// with list indentation.
pub open spec fn options_spec(s: SettingsView) -> ParseConfigView {
    ParseConfigView {
        table: true,
        strikethrough: true,
        tasklist: true,
        alerts: true,
        autolink: !s.mdx,
        footnotes: true,
        math_dollars: true,
        front_matter: s.frontmatter,
        width: s.width,
        prefer_fenced: true,
    }
}

/// The parser and renderer configuration a document is read with.
pub fn options(settings: &Settings) -> (c: ParseConfig)
    ensures
        c@ == options_spec(settings@),
{
    let front_matter = match &settings.frontmatter {
        Some(f) => Some(f.clone()),
        None => None,
    };
    ParseConfig {
        table: true,
        strikethrough: true,
        tasklist: true,
        alerts: true,
        autolink: !settings.mdx,
        footnotes: true,
        math_dollars: true,
        front_matter,
        width: settings.width,
        prefer_fenced: true,
    }
}

pub open spec fn result_view(r: Result<String, String>) -> Result<Seq<char>, Seq<char>> {
    match r {
        Ok(s) => Ok(s@),
        Err(e) => Err(e@),
    }
}

/// What comrak renders `input` as, read and written with the given
/// extensions, frontmatter fence, wrap width and code block style; or the
/// message of the formatting error it reports.
pub uninterp spec fn comrak_commonmark(
    input: Seq<char>,
    table: bool,
    strikethrough: bool,
    tasklist: bool,
    alerts: bool,
    autolink: bool,
    footnotes: bool,
    math_dollars: bool,
    front_matter: Option<Seq<char>>,
    width: usize,
    prefer_fenced: bool,
) -> Result<Seq<char>, Seq<char>>;

pub open spec fn opt_view(o: Option<String>) -> Option<Seq<char>> {
    match o {
        Some(s) => Some(s@),
        None => None,
    }
}

/// What comrak renders `input` as under `c`.
pub open spec fn rendering(input: Seq<char>, c: ParseConfigView) -> Result<Seq<char>, Seq<char>> {
    comrak_commonmark(
        input,
        c.table,
        c.strikethrough,
        c.tasklist,
        c.alerts,
        c.autolink,
        c.footnotes,
        c.math_dollars,
        c.front_matter,
        c.width,
        c.prefer_fenced,
    )
}

/// comrak's `parse_document` followed by `format_commonmark`, with these
/// options set and the others at comrak's defaults. The contract claims
/// only that the outcome is a function of the arguments: the CommonMark
/// comrak writes, or the text of the `fmt::Error` it returns.
#[verifier::external_body]
fn render_commonmark(
    input: &str,
    table: bool,
    strikethrough: bool,
    tasklist: bool,
    alerts: bool,
    autolink: bool,
    footnotes: bool,
    math_dollars: bool,
    front_matter: Option<String>,
    width: usize,
    prefer_fenced: bool,
) -> (r: Result<String, String>)
    ensures
        result_view(r) == comrak_commonmark(
            input@,
            table,
            strikethrough,
            tasklist,
            alerts,
            autolink,
            footnotes,
            math_dollars,
            opt_view(front_matter),
            width,
            prefer_fenced,
        ),
{
    let o = Options {
        extension: Extension { table, strikethrough, tasklist, alerts, autolink, footnotes, math_dollars, front_matter_delimiter: front_matter, ..Default::default() },
        render: Render { width, prefer_fenced, ..Default::default() },
        ..Default::default()
    };
    let arena = Arena::new();
    let mut out = String::new();
    match format_commonmark(parse_document(&arena, input, &o), &o, &mut out) {
        Ok(()) => Ok(out),
        Err(e) => Err(e.to_string()),
    }
}

pub open spec fn BACKTICK() -> u8 {
    0x60
}

pub open spec fn TILDE() -> u8 {
    0x7e
}

pub open spec fn NEWLINE() -> u8 {
    0x0a
}

/// Where the run of `m` bytes starting at `i` ends.
pub open spec fn run_end(b: Seq<u8>, m: u8, i: int) -> int
    decreases b.len() - i,
{
    if 0 <= i < b.len() && b[i] == m {
        run_end(b, m, i + 1)
    } else {
        i
    }
}

pub open spec fn holds_byte(b: Seq<u8>, x: u8) -> bool {
    exists|i: int| 0 <= i < b.len() && b[i] == x
}

/// The fence character and length if `line` opens a fenced code block: at
/// least three backticks or tildes after any indentation, and, for backticks,
/// no further backtick in the info string.
pub open spec fn fence_opened(line: Seq<u8>) -> Option<(u8, usize)> {
    let rest = trim_start(line);
    if rest.len() > 0 && (rest[0] == BACKTICK() || rest[0] == TILDE()) {
        let m = rest[0];
        let n = run_end(rest, m, 0);
        if n >= 3 && !(m == BACKTICK() && holds_byte(rest.subrange(n, rest.len() as int), BACKTICK())) {
            Some((m, n as usize))
        } else {
            None
        }
    } else {
        None
    }
}

/// Whether `line` closes a code block opened by `n` of `m`: at least as many
/// fence characters after any indentation, and nothing else but trailing
/// whitespace.
pub open spec fn fence_closed(line: Seq<u8>, m: u8, n: usize) -> bool {
    let rest = trim_start(line);
    let body = trim_end(rest);
    &&& run_end(rest, m, 0) >= n
    &&& forall|i: int| 0 <= i < body.len() ==> body[i] == m
}

/// The code block, if any, that is open when line `k` is reached.
pub open spec fn fence_state(lines: Seq<Seq<u8>>, k: int) -> Option<(u8, usize)>
    decreases k,
{
    if k <= 0 {
        None
    } else {
        match fence_state(lines, k - 1) {
            Some((m, n)) => if fence_closed(lines[k - 1], m, n) {
                None
            } else {
                Some((m, n))
            },
            None => fence_opened(lines[k - 1]),
        }
    }
}

/// Line `k` as `blank_lines` leaves it: inside a code block it is kept as it
/// is; elsewhere a line of nothing but whitespace is emptied.
pub open spec fn blanked(lines: Seq<Seq<u8>>, k: int) -> Seq<u8> {
    let line = lines[k];
    match fence_state(lines, k) {
        Some((m, n)) if !fence_closed(line, m, n) => line,
        _ => if is_blank(line) {
            Seq::<u8>::empty()
        } else {
            line
        },
    }
}

/// `text` with the whitespace-only lines outside code blocks emptied.
pub open spec fn blank_lines_spec(text: Seq<u8>) -> Seq<u8> {
    let lines = split(text, NEWLINE());
    join(Seq::new(lines.len(), |k: int| blanked(lines, k)), NEWLINE())
}

/// Where the run of `m` bytes starting at `i` ends.
fn run_of(b: &[u8], m: u8, i: usize) -> (e: usize)
    requires
        i <= b@.len(),
    ensures
        e == run_end(b@, m, i as int),
        i <= e <= b@.len(),
{
    let mut j = i;
    while j < b.len() && b[j] == m
        invariant
            i <= j <= b@.len(),
            run_end(b@, m, i as int) == run_end(b@, m, j as int),
        decreases b@.len() - j,
    {
        j = j + 1;
    }
    j
}

/// Whether `x` occurs in `b` at or after `from`.
pub(crate) fn has_byte(b: &[u8], from: usize, x: u8) -> (r: bool)
    requires
        from <= b@.len(),
    ensures
        r == holds_byte(b@.subrange(from as int, b@.len() as int), x),
{
    let ghost t = b@.subrange(from as int, b@.len() as int);
    let mut j = from;
    while j < b.len()
        invariant
            from <= j <= b@.len(),
            t == b@.subrange(from as int, b@.len() as int),
            forall|k: int| 0 <= k < j - from ==> t[k] != x,
        decreases b@.len() - j,
    {
        if b[j] == x {
            assert(t[j - from] == x);
            return true;
        }
        j = j + 1;
    }
    false
}

/// The fence character and length if this line opens a fenced code block.
fn opens_fence(line: &str) -> (r: Option<(u8, usize)>)
    ensures
        r == fence_opened(line.spec_bytes()),
{
    let b = line.as_bytes();
    let s = skip_ws(b, 0);
    let rest = vstd::slice::slice_subrange(b, s, b.len());
    assert(rest@ == trim_start(line.spec_bytes()));
    if rest.len() == 0 {
        return None;
    }
    let m = rest[0];
    if m != 0x60 && m != 0x7e {
        return None;
    }
    let n = run_of(rest, m, 0);
    // An info string may not contain a backtick, which is what keeps inline
    // code out of this.
    if n >= 3 && !(m == 0x60 && has_byte(rest, n, 0x60)) {
        Some((m, n))
    } else {
        None
    }
}

fn closes_fence(line: &str, m: u8, n: usize) -> (r: bool)
    ensures
        r == fence_closed(line.spec_bytes(), m, n),
{
    let b = line.as_bytes();
    let s = skip_ws(b, 0);
    let rest = vstd::slice::slice_subrange(b, s, b.len());
    assert(rest@ == trim_start(line.spec_bytes()));
    let count = run_of(rest, m, 0);
    if count < n {
        return false;
    }
    let e = back_ws(rest, 0, rest.len());
    let ghost body = trim_end(rest@);
    assert(body == rest@.subrange(0, e as int));
    let mut j: usize = 0;
    while j < e
        invariant
            e <= rest@.len(),
            body == rest@.subrange(0, e as int),
            rest@ == trim_start(line.spec_bytes()),
            body == trim_end(rest@),
            run_end(rest@, m, 0) >= n,
            j <= e,
            forall|i: int| 0 <= i < j ==> body[i] == m,
        decreases e - j,
    {
        if rest[j] != m {
            assert(body[j as int] != m);
            return false;
        }
        j = j + 1;
    }
    true
}

/// Empty the whitespace-only lines comrak leaves behind when it indents a
/// loose list item.
///
/// A line of nothing but spaces is never a hard line break (that needs two
/// spaces after actual text), so emptying it cannot change how the document
/// parses. Inside a fenced code block it could change the *contents*, though,
/// so those are skipped.
pub fn blank_lines(text: &str) -> (out: String)
    ensures
        encode_utf8(out@) == blank_lines_spec(text.spec_bytes()),
{
    let lines = split_lines(text);
    let ghost ls = split(text.spec_bytes(), NEWLINE());
    let mut out = String::new();
    let mut fence: Option<(u8, usize)> = None;
    let mut k: usize = 0;
    while k < lines.len()
        invariant
            lines@.map_values(|l: &str| l.spec_bytes()) == ls,
            ls.len() == lines@.len(),
            k <= lines@.len(),
            fence == fence_state(ls, k as int),
            encode_utf8(out@) == join(Seq::new(k as nat, |j: int| blanked(ls, j)), NEWLINE()),
        decreases lines@.len() - k,
    {
        let line = lines[k];
        assert(line.spec_bytes() == ls[k as int]);
        let ghost before = Seq::new(k as nat, |j: int| blanked(ls, j));
        let ghost after = Seq::new((k + 1) as nat, |j: int| blanked(ls, j));
        assert(after.drop_last() =~= before);
        if k > 0 {
            push_ascii(&mut out, '\n');
        }
        let mut keep = true;
        match fence {
            Some((m, n)) => {
                if closes_fence(line, m, n) {
                    fence = None;
                } else {
                    push_str(&mut out, line);
                    keep = false;
                }
            },
            None => {
                fence = opens_fence(line);
            },
        }
        if keep {
            let b = line.as_bytes();
            if skip_ws(b, 0) < b.len() {
                push_str(&mut out, line);
            } else {
                assert(is_blank(ls[k as int]));
                assert(line.spec_bytes() + Seq::<u8>::empty() =~= line.spec_bytes()) by {}
                assert(encode_utf8(out@) + Seq::<u8>::empty() =~= encode_utf8(out@));
            }
        }
        assert(after.last() == blanked(ls, k as int));
        if k == 0 {
            assert(encode_utf8(out@) =~= join(after, NEWLINE()));
        } else {
            assert(encode_utf8(out@) =~= join(after, NEWLINE()));
        }
        k = k + 1;
    }
    assert(Seq::new(lines@.len() as nat, |j: int| blanked(ls, j)) =~= Seq::new(
        ls.len(),
        |j: int| blanked(ls, j),
    ));
    out
}


/// What `commonmark` makes of `input` with `settings`: comrak's rendering,
/// its whitespace-only lines emptied and its tables aligned; or comrak's
/// error, explained.
pub open spec fn commonmark_spec(input: Seq<char>, s: SettingsView) -> Result<Seq<u8>, Seq<char>> {
    match rendering(input, options_spec(s)) {
        Err(e) => Err("comrak failed to render: "@ + e),
        Ok(out) => {
            let blanked = blank_lines_spec(encode_utf8(out));
            Ok(crate::table::align_spec(blanked, crate::table::nodes_of(decode_utf8(blanked), s)))
        },
    }
}

/// Run comrak over a document that contains no MDX, or whose MDX has
/// already been masked out.
///
/// comrak renders a table with one space around each cell, which is valid
/// and unreadable. Padding the columns is a second pass over comrak's own
/// output rather than part of the render, since comrak does not offer the
/// hook, and it is the same pass the editor runs while a table is typed.
pub fn commonmark(input: &str, settings: &Settings) -> (r: Result<String, String>)
    ensures
        match r {
            Ok(out) => commonmark_spec(input@, settings@) == Ok::<Seq<u8>, Seq<char>>(encode_utf8(out@)),
            Err(e) => commonmark_spec(input@, settings@) == Err::<Seq<u8>, Seq<char>>(e@),
        },
{
    let c = options(settings);
    let rendered = render_commonmark(
        input,
        c.table,
        c.strikethrough,
        c.tasklist,
        c.alerts,
        c.autolink,
        c.footnotes,
        c.math_dollars,
        c.front_matter,
        c.width,
        c.prefer_fenced,
    );
    match rendered {
        Err(e) => {
            let mut m = owned("comrak failed to render: ");
            push_str(&mut m, e.as_str());
            Err(m)
        },
        Ok(out) => {
            let blanked = blank_lines(out.as_str());
            proof {
                vstd::utf8::encode_utf8_decode_utf8(blanked@);
            }
            Ok(crate::table::align(blanked.as_str(), settings))
        },
    }
}

/// `b` without the line feeds it ends with.
pub open spec fn trim_newlines(b: Seq<u8>) -> Seq<u8>
    decreases b.len(),
{
    if b.len() > 0 && b.last() == NEWLINE() {
        trim_newlines(b.drop_last())
    } else {
        b
    }
}

/// Whether `b` ends with a line feed.
pub open spec fn ends_with_newline(b: Seq<u8>) -> bool {
    b.len() > 0 && b.last() == NEWLINE()
}

/// What formatting the whole of `input` with `s` gives: the MDX pipeline or
/// plain comrak as the settings say, and the input's lack of a trailing
/// newline kept.
pub open spec fn format_spec(input: Seq<char>, s: SettingsView) -> Result<Seq<u8>, Seq<char>> {
    let r = if s.mdx {
        crate::mdx::format_spec(input, s)
    } else {
        commonmark_spec(input, s)
    };
    match r {
        Err(e) => Err(e),
        Ok(out) => Ok(
            if ends_with_newline(encode_utf8(input)) || out.len() == 0 {
                out
            } else {
                trim_newlines(out)
            },
        ),
    }
}

/// `text` without the line feeds it ends with.
fn trim_trailing_newlines(text: &str) -> (r: String)
    ensures
        encode_utf8(r@) == trim_newlines(text.spec_bytes()),
{
    let b = text.as_bytes();
    let ghost bs = text.spec_bytes();
    let mut e = b.len();
    assert(bs.subrange(0, e as int) =~= bs);
    while e > 0 && b[e - 1] == 0x0a
        invariant
            b@ == bs,
            bs == text.spec_bytes(),
            e <= bs.len(),
            trim_newlines(bs) == trim_newlines(bs.subrange(0, e as int)),
            e < bs.len() ==> bs[e as int] == NEWLINE(),
        decreases e,
    {
        assert(bs.subrange(0, e as int).drop_last() =~= bs.subrange(0, e - 1));
        e = e - 1;
    }
    proof {
        vstd::utf8::encode_utf8_valid_utf8(text@);
        crate::text::lemma_boundary_local(bs, e as int);
        crate::text::lemma_boundary_local(bs, 0);
    }
    owned(crate::text::slice(text, 0, e))
}

/// Format a whole document.
///
/// The trailing newline of the input is reproduced: comrak always
/// terminates its output with one, which would otherwise turn a buffer with
/// `noeol` set into a buffer with a trailing blank.
pub fn format(input: &str, settings: &Settings) -> (r: Result<String, String>)
    ensures
        crate::mdx::outcome_matches(r, format_spec(input@, settings@)),
{
    let formatted = if settings.mdx {
        crate::mdx::format(input, settings)
    } else {
        commonmark(input, settings)
    };
    let formatted = match formatted {
        Err(e) => {
            return Err(e);
        },
        Ok(f) => f,
    };
    let ib = input.as_bytes();
    let fb = formatted.as_str().as_bytes();
    if (ib.len() > 0 && ib[ib.len() - 1] == 0x0a) || fb.len() == 0 {
        Ok(formatted)
    } else {
        Ok(trim_trailing_newlines(formatted.as_str()))
    }
}

/// A code block that is open at some line was opened by a fence of at
/// least three characters.
proof fn lemma_fence_long(lines: Seq<Seq<u8>>, k: int)
    requires
        k <= lines.len(),
        forall|j: int| 0 <= j < k ==> #[trigger] lines[j].len() <= usize::MAX,
    ensures
        match fence_state(lines, k) {
            Some((m, n)) => n >= 3,
            None => true,
        },
    decreases k,
{
    if k > 0 {
        lemma_fence_long(lines, k - 1);
        let line = lines[k - 1];
        assert(line.len() <= usize::MAX);
        lemma_ws_run_bounds(line, 0);
        let rest = trim_start(line);
        if rest.len() > 0 {
            lemma_run_end_bound(rest, rest[0], 0);
        }
    }
}

proof fn lemma_run_end_bound(b: Seq<u8>, m: u8, i: int)
    requires
        0 <= i <= b.len(),
    ensures
        i <= run_end(b, m, i) <= b.len(),
    decreases b.len() - i,
{
    if 0 <= i < b.len() && b[i] == m {
        lemma_run_end_bound(b, m, i + 1);
    }
}

/// A blank line neither opens nor closes a code block.
proof fn lemma_blank_no_fence(line: Seq<u8>, m: u8, n: usize)
    requires
        is_blank(line),
        n >= 3,
    ensures
        fence_opened(line) is None,
        !fence_closed(line, m, n),
        fence_opened(Seq::<u8>::empty()) is None,
        !fence_closed(Seq::<u8>::empty(), m, n),
{
    assert(trim_start(line).len() == 0);
    assert(Seq::<u8>::empty().len() == 0);
    assert(ws_run(Seq::<u8>::empty(), 0) == 0);
    assert(trim_start(Seq::<u8>::empty()).len() == 0);
}

/// The lines `blank_lines` leaves.
pub open spec fn blanked_lines(text: Seq<u8>) -> Seq<Seq<u8>> {
    let lines = split(text, NEWLINE());
    Seq::new(lines.len(), |k: int| blanked(lines, k))
}

/// The lines `blank_lines` leaves are the lines of its output.
proof fn lemma_blanked_split(text: Seq<u8>)
    ensures
        split(blank_lines_spec(text), NEWLINE()) == blanked_lines(text),
        blanked_lines(text).len() == split(text, NEWLINE()).len(),
{
    let ls = split(text, NEWLINE());
    let bl = blanked_lines(text);
    lemma_split_len(text, NEWLINE());
    lemma_split_pieces(text, NEWLINE());
    assert forall|k: int, j: int| 0 <= k < bl.len() && 0 <= j < bl[k].len() implies bl[k][j] != NEWLINE() by {
        assert(bl[k] == blanked(ls, k));
    }
    lemma_split_join(bl, NEWLINE());
}

/// Reading the emptied lines again finds the same code blocks.
proof fn lemma_blanked_fences(text: Seq<u8>, k: int)
    requires
        text.len() <= usize::MAX,
        0 <= k <= split(text, NEWLINE()).len(),
    ensures
        fence_state(blanked_lines(text), k) == fence_state(split(text, NEWLINE()), k),
    decreases k,
{
    if k > 0 {
        let ls = split(text, NEWLINE());
        let bl = blanked_lines(text);
        lemma_blanked_fences(text, k - 1);
        lemma_split_piece_len(text, NEWLINE());
        lemma_fence_long(ls, k - 1);
        assert(bl[k - 1] == blanked(ls, k - 1));
        if is_blank(ls[k - 1]) {
            match fence_state(ls, k - 1) {
                Some((m, n)) => lemma_blank_no_fence(ls[k - 1], m, n),
                None => lemma_blank_no_fence(ls[k - 1], 0, 3),
            }
        }
    }
}

/// Emptying the whitespace-only lines of a document a second time changes
/// nothing: `blank_lines` is idempotent.
pub proof fn lemma_blank_lines_idempotent(text: Seq<u8>)
    requires
        text.len() <= usize::MAX,
    ensures
        blank_lines_spec(blank_lines_spec(text)) == blank_lines_spec(text),
{
    let ls = split(text, NEWLINE());
    let bl = blanked_lines(text);
    let out = blank_lines_spec(text);
    lemma_blanked_split(text);
    lemma_split_piece_len(text, NEWLINE());
    assert forall|k: int| 0 <= k < bl.len() implies blanked(bl, k) == bl[k] by {
        lemma_blanked_fences(text, k);
        lemma_fence_long(ls, k);
        assert(bl[k] == blanked(ls, k));
        if is_blank(ls[k]) {
            match fence_state(ls, k) {
                Some((m, n)) => lemma_blank_no_fence(ls[k], m, n),
                None => lemma_blank_no_fence(ls[k], 0, 3),
            }
        }
    }
    assert(Seq::new(bl.len(), |k: int| blanked(bl, k)) =~= bl);
}

/// `blank_lines` keeps every line, empties each whitespace-only line outside
/// a fenced code block, and changes nothing else: a line inside a code
/// block is kept as it is, and no line outside one is left holding nothing
/// but whitespace.
pub proof fn lemma_blank_lines_empties(text: Seq<u8>)
    ensures
        ({
            let ls = split(text, NEWLINE());
            let out = split(blank_lines_spec(text), NEWLINE());
            &&& out.len() == ls.len()
            &&& forall|k: int| 0 <= k < ls.len() ==> #[trigger] out[k] == ls[k] || (is_blank(ls[k]) && out[k].len() == 0)
            &&& forall|k: int| 0 <= k < ls.len() ==> (match fence_state(ls, k) {
                Some((m, n)) => !fence_closed(ls[k], m, n),
                None => false,
            }) ==> #[trigger] out[k] == ls[k]
            &&& forall|k: int| 0 <= k < ls.len() ==> is_blank(#[trigger] out[k]) && out[k].len() > 0
                ==> (match fence_state(ls, k) {
                Some((m, n)) => !fence_closed(ls[k], m, n),
                None => false,
            })
        }),
{
    let ls = split(text, NEWLINE());
    lemma_blanked_split(text);
    assert forall|k: int| 0 <= k < ls.len() implies #[trigger] blanked_lines(text)[k] == blanked(ls, k) by {}
}

/// Whether the trailing newline is handled as `format` promises: an input
/// without one gives output without one, and an input with one gives the
/// formatter's output untouched.
pub open spec fn keeps_trailing_newline(input: Seq<u8>, rendered: Seq<u8>, out: Seq<u8>) -> bool {
    &&& !ends_with_newline(input) ==> !ends_with_newline(out)
    &&& ends_with_newline(input) ==> out == rendered
}

proof fn lemma_trim_newlines(b: Seq<u8>)
    ensures
        !ends_with_newline(trim_newlines(b)),
    decreases b.len(),
{
    if b.len() > 0 && b.last() == NEWLINE() {
        lemma_trim_newlines(b.drop_last());
    }
}

/// The trailing newline of the input is reproduced: formatting a document
/// that does not end with a newline gives one that does not either, and
/// one that does end with a newline gets the formatter's output as it is.
pub proof fn lemma_format_trailing_newline(input: Seq<char>, s: SettingsView)
    ensures
        match format_spec(input, s) {
            Ok(out) => keeps_trailing_newline(
                encode_utf8(input),
                if s.mdx {
                    crate::mdx::format_spec(input, s)->Ok_0
                } else {
                    commonmark_spec(input, s)->Ok_0
                },
                out,
            ),
            Err(_) => true,
        },
{
    let r = if s.mdx {
        crate::mdx::format_spec(input, s)
    } else {
        commonmark_spec(input, s)
    };
    if let Ok(out) = r {
        lemma_trim_newlines(out);
    }
}

proof fn lemma_join_len_le(a: Seq<Seq<u8>>, c: Seq<Seq<u8>>, sep: u8)
    requires
        a.len() == c.len(),
        forall|k: int| 0 <= k < a.len() ==> #[trigger] a[k].len() <= c[k].len(),
    ensures
        join(a, sep).len() <= join(c, sep).len(),
    decreases a.len(),
{
    if a.len() > 1 {
        lemma_join_len_le(a.drop_last(), c.drop_last(), sep);
    }
}

/// Emptying the whitespace-only lines never makes a document longer.
pub proof fn lemma_blank_lines_shrinks(text: Seq<u8>)
    ensures
        blank_lines_spec(text).len() <= text.len(),
{
    let ls = split(text, NEWLINE());
    lemma_join_split(text, NEWLINE());
    let bl = Seq::new(ls.len(), |k: int| blanked(ls, k));
    assert forall|k: int| 0 <= k < bl.len() implies #[trigger] bl[k].len() <= ls[k].len() by {}
    lemma_join_len_le(bl, ls, NEWLINE());
}

/// Every document is read and written with the GFM extensions on (tables,
/// strikethrough, task lists, alerts, footnotes, dollar math) and fenced
/// code blocks preferred, whatever the settings; the settings decide only
/// the frontmatter fence, the wrap width, and whether bare URLs are
/// autolinked (never for MDX). comrak is handed exactly that configuration.
pub proof fn lemma_options_follow_settings(input: Seq<char>, s: SettingsView)
    ensures
        options_spec(s).table,
        options_spec(s).strikethrough,
        options_spec(s).tasklist,
        options_spec(s).alerts,
        options_spec(s).footnotes,
        options_spec(s).math_dollars,
        options_spec(s).prefer_fenced,
        options_spec(s).autolink == !s.mdx,
        options_spec(s).front_matter == s.frontmatter,
        options_spec(s).width == s.width,
        rendering(input, options_spec(s)) == comrak_commonmark(
            input,
            true,
            true,
            true,
            true,
            !s.mdx,
            true,
            true,
            s.frontmatter,
            s.width,
            true,
        ),
{
}

} // verus!
