//! Aligning GFM tables: every one in the document when it is formatted, and
//! the one under the cursor while it is being edited.
//!
//! comrak renders a table with single spaces around its cells, which is valid
//! Markdown and unreadable in a plain-text editor, so the padding is put back
//! here. None of what happens here is a Markdown parser: comrak parses the
//! buffer, and this module reads the answer off comrak's document tree, which
//! reaches it as the list of the tree's nodes in document order with their
//! source positions. A run of lines is a table when comrak says it is, and
//! not before; a row carrying more cells than the header declares leaves its
//! table alone, since GFM discards the surplus and rewriting the row would
//! delete text the author can still see.
//!
//! Positions follow Neovim's conventions at the boundary: rows are 1-based,
//! columns are 0-based byte offsets. comrak's source columns are 1-based
//! byte offsets, and are converted on the way in and out.

use vstd::prelude::*;
use vstd::string::*;
use vstd::utf8::*;

use comrak::nodes::NodeValue as V;
use comrak::options::Extension;
use comrak::{Arena, Options, parse_document};
use unicode_width::UnicodeWidthStr;

use crate::format::{ParseConfig, ParseConfigView, Settings, SettingsView, opt_view, options, options_spec};
use crate::text::{
    decimal, push_ascii, push_decimal, push_str,
    is_blank, join, lemma_split_join, lemma_split_len, lemma_split_pieces, owned, lemma_boundary_after_scalar, lemma_boundary_local, lemma_ws_back_boundary,
    lemma_ws_back_bounds, lemma_ws_run_boundary, lemma_ws_run_bounds, skip_ws, back_ws, slice, split, split_lines, trim, trim_start, ws_back, ws_run,
};

verus! {

broadcast use vstd::utf8::group_utf8_lib;

/// How a table column is aligned, as its delimiter row says.
#[derive(Clone, Copy, Debug)]
pub enum Align {
    /// No colon: the column has no alignment of its own.
    Plain,
    Left,
    Center,
    Right,
}

/// What a node of comrak's tree is, as far as tables are concerned.
pub enum NodeKind {
    /// A table, with the alignment code of each of its columns.
    Table(Vec<u8>),
    Row,
    Cell,
    Other,
}

/// A node of comrak's tree: what it is, and the span of the source it came
/// from, as 1-based lines and 1-based byte columns, the end inclusive.
pub struct MdNode {
    pub kind: NodeKind,
    pub start_line: usize,
    pub start_column: usize,
    pub end_line: usize,
    pub end_column: usize,
}

pub enum NodeKindView {
    Table(Seq<u8>),
    Row,
    Cell,
    Other,
}

pub struct MdNodeView {
    pub kind: NodeKindView,
    pub start_line: usize,
    pub start_column: usize,
    pub end_line: usize,
    pub end_column: usize,
}

impl View for MdNode {
    type V = MdNodeView;

    open spec fn view(&self) -> MdNodeView {
        MdNodeView {
            kind: match self.kind {
                NodeKind::Table(a) => NodeKindView::Table(a@),
                NodeKind::Row => NodeKindView::Row,
                NodeKind::Cell => NodeKindView::Cell,
                NodeKind::Other => NodeKindView::Other,
            },
            start_line: self.start_line,
            start_column: self.start_column,
            end_line: self.end_line,
            end_column: self.end_column,
        }
    }
}

/// The nodes of the tree comrak parses `input` into with the given
/// extensions and frontmatter fence, in document order (each node before its
/// children, children in order).
pub uninterp spec fn comrak_nodes(
    input: Seq<char>,
    table: bool,
    strikethrough: bool,
    tasklist: bool,
    alerts: bool,
    autolink: bool,
    footnotes: bool,
    math_dollars: bool,
    front_matter: Option<Seq<char>>,
) -> Seq<MdNodeView>;

/// The nodes comrak parses `input` into under `c`.
pub open spec fn parsed_nodes(input: Seq<char>, c: ParseConfigView) -> Seq<MdNodeView> {
    comrak_nodes(
        input,
        c.table,
        c.strikethrough,
        c.tasklist,
        c.alerts,
        c.autolink,
        c.footnotes,
        c.math_dollars,
        c.front_matter,
    )
}

/// comrak's `parse_document` with these extension options set and the
/// others at comrak's defaults, its tree walked with `descendants`, each
/// node converted to an `MdNode`: its kind (a table's alignments taken as
/// comrak's `TableAlignment` codes, 0 to 3 for none, left, center, right),
/// then its `sourcepos`. The contract claims only that the nodes are a
/// function of the arguments.
#[verifier::external_body]
fn parse_nodes(
    input: &str,
    table: bool,
    strikethrough: bool,
    tasklist: bool,
    alerts: bool,
    autolink: bool,
    footnotes: bool,
    math_dollars: bool,
    front_matter: Option<String>,
) -> (nodes: Vec<MdNode>)
    ensures
        nodes@.map_values(|n: MdNode| n@) == comrak_nodes(
            input@,
            table,
            strikethrough,
            tasklist,
            alerts,
            autolink,
            footnotes,
            math_dollars,
            opt_view(front_matter),
        ),
{
    let mut o = Options::default();
    o.extension = Extension { table, strikethrough, tasklist, alerts, autolink, footnotes, math_dollars, front_matter_delimiter: front_matter, ..Default::default() };
    let arena = Arena::new();
    parse_document(&arena, input, &o).descendants().map(|n| {
        let d = n.data();
        let p = d.sourcepos;
        MdNode {
            kind: match &d.value { V::Table(t) => NodeKind::Table(t.alignments.iter().map(|a| *a as u8).collect()), V::TableRow(_) => NodeKind::Row, V::TableCell => NodeKind::Cell, _ => NodeKind::Other },
            start_line: p.start.line, start_column: p.start.column, end_line: p.end.line, end_column: p.end.column,
        }
    }).collect()
}

/// A table row as comrak found it: where it starts, and the span of each of
/// its cells as a pair of 1-based byte columns, the end inclusive.
pub struct RowNode {
    pub start_line: usize,
    pub start_column: usize,
    pub cells: Vec<(usize, usize)>,
}

/// A table as comrak found it: its column alignments, its first and last
/// line, and its rows.
pub struct TableNode {
    pub aligns: Vec<u8>,
    pub start_line: usize,
    pub end_line: usize,
    pub rows: Vec<RowNode>,
}

pub struct RowNodeView {
    pub start_line: usize,
    pub start_column: usize,
    pub cells: Seq<(usize, usize)>,
}

pub struct TableNodeView {
    pub aligns: Seq<u8>,
    pub start_line: usize,
    pub end_line: usize,
    pub rows: Seq<RowNodeView>,
}

impl View for RowNode {
    type V = RowNodeView;

    open spec fn view(&self) -> RowNodeView {
        RowNodeView {
            start_line: self.start_line,
            start_column: self.start_column,
            cells: self.cells@,
        }
    }
}

impl View for TableNode {
    type V = TableNodeView;

    open spec fn view(&self) -> TableNodeView {
        TableNodeView {
            aligns: self.aligns@,
            start_line: self.start_line,
            end_line: self.end_line,
            rows: self.rows@.map_values(|r: RowNode| r@),
        }
    }
}

pub open spec fn add_row(t: TableNodeView, n: MdNodeView) -> TableNodeView {
    TableNodeView {
        aligns: t.aligns,
        start_line: t.start_line,
        end_line: t.end_line,
        rows: t.rows.push(RowNodeView { start_line: n.start_line, start_column: n.start_column, cells: seq![] }),
    }
}

pub open spec fn add_cell(t: TableNodeView, n: MdNodeView) -> TableNodeView {
    if t.rows.len() == 0 {
        t
    } else {
        let r = t.rows.last();
        TableNodeView {
            aligns: t.aligns,
            start_line: t.start_line,
            end_line: t.end_line,
            rows: t.rows.update(
                t.rows.len() - 1,
                RowNodeView {
                    start_line: r.start_line,
                    start_column: r.start_column,
                    cells: r.cells.push((n.start_column, n.end_column)),
                },
            ),
        }
    }
}

/// The tables among `nodes`, each with its rows and each row with its cells.
/// In comrak's tree a table's children are its rows and a row's children its
/// cells, and tables do not nest; in document order, then, a row belongs to
/// the table before it, and a cell to the row before it.
pub open spec fn group(nodes: Seq<MdNodeView>) -> Seq<TableNodeView>
    decreases nodes.len(),
{
    if nodes.len() == 0 {
        seq![]
    } else {
        let g = group(nodes.drop_last());
        let n = nodes.last();
        match n.kind {
            NodeKindView::Table(a) => g.push(
                TableNodeView { aligns: a, start_line: n.start_line, end_line: n.end_line, rows: seq![] },
            ),
            NodeKindView::Row => if g.len() == 0 {
                g
            } else {
                g.update(g.len() - 1, add_row(g.last(), n))
            },
            NodeKindView::Cell => if g.len() == 0 {
                g
            } else {
                g.update(g.len() - 1, add_cell(g.last(), n))
            },
            NodeKindView::Other => g,
        }
    }
}

pub open spec fn with_row(t: TableNode, row: Option<RowNode>) -> TableNodeView {
    match row {
        None => t@,
        Some(r) => TableNodeView {
            aligns: t@.aligns,
            start_line: t@.start_line,
            end_line: t@.end_line,
            rows: t@.rows.push(r@),
        },
    }
}

pub open spec fn closed(tables: Seq<TableNodeView>, cur: Option<TableNode>, row: Option<RowNode>) -> Seq<
    TableNodeView,
> {
    match cur {
        None => tables,
        Some(t) => tables.push(with_row(t, row)),
    }
}

fn copy_aligns(a: &Vec<u8>) -> (r: Vec<u8>)
    ensures
        r@ == a@,
{
    let mut r: Vec<u8> = Vec::new();
    let mut i: usize = 0;
    while i < a.len()
        invariant
            i <= a@.len(),
            r@ == a@.subrange(0, i as int),
        decreases a@.len() - i,
    {
        r.push(a[i]);
        i = i + 1;
        assert(r@ =~= a@.subrange(0, i as int));
    }
    assert(a@.subrange(0, a@.len() as int) =~= a@);
    r
}

/// The tables among `nodes`.
pub fn group_tables(nodes: &Vec<MdNode>) -> (tables: Vec<TableNode>)
    ensures
        tables@.map_values(|t: TableNode| t@) == group(nodes@.map_values(|n: MdNode| n@)),
{
    let ghost ns = nodes@.map_values(|n: MdNode| n@);
    let mut tables: Vec<TableNode> = Vec::new();
    let mut cur: Option<TableNode> = None;
    let mut row: Option<RowNode> = None;
    let mut i: usize = 0;
    assert(ns.subrange(0, 0) =~= Seq::<MdNodeView>::empty());
    assert(tables@.map_values(|t: TableNode| t@) =~= Seq::<TableNodeView>::empty());
    while i < nodes.len()
        invariant
            ns == nodes@.map_values(|n: MdNode| n@),
            ns.len() == nodes@.len(),
            i <= nodes@.len(),
            cur is None ==> tables@.len() == 0 && row is None,
            row is None && cur is Some ==> cur->0.rows@.len() == 0,
            closed(tables@.map_values(|t: TableNode| t@), cur, row) == group(ns.subrange(0, i as int)),
        decreases nodes@.len() - i,
    {
        let ghost before = tables@.map_values(|t: TableNode| t@);
        let ghost g = group(ns.subrange(0, i as int));
        let node = &nodes[i];
        let ghost x = ns[i as int];
        assert(node@ == x);
        assert(ns.subrange(0, i + 1).drop_last() =~= ns.subrange(0, i as int));
        assert(ns.subrange(0, i + 1).last() == x);
        match &node.kind {
            NodeKind::Table(a) => {
                match cur {
                    Some(mut t) => {
                        let ghost w = with_row(t, row);
                        match row {
                            Some(r) => {
                                t.rows.push(r);
                            },
                            None => {},
                        }
                        assert(t@.rows =~= w.rows);
                        tables.push(t);
                        assert(tables@.map_values(|t: TableNode| t@) =~= before.push(w));
                    },
                    None => {},
                }
                assert(tables@.map_values(|t: TableNode| t@) =~= g);
                cur = Some(TableNode {
                    aligns: copy_aligns(a),
                    start_line: node.start_line,
                    end_line: node.end_line,
                    rows: Vec::new(),
                });
                row = None;
                assert(cur->0@.rows =~= Seq::<RowNodeView>::empty());
            },
            NodeKind::Row => {
                match cur {
                    Some(mut t) => {
                        match row {
                            Some(r) => {
                                t.rows.push(r);
                            },
                            None => {},
                        }
                        row = Some(RowNode {
                            start_line: node.start_line,
                            start_column: node.start_column,
                            cells: Vec::new(),
                        });
                        assert(row->0@.cells =~= Seq::<(usize, usize)>::empty());
                        cur = Some(t);
                        assert(with_row(cur->0, row).rows =~= g.last().rows.push(
                            RowNodeView { start_line: x.start_line, start_column: x.start_column, cells: seq![] },
                        ));
                    },
                    None => {
                        cur = None;
                    },
                }
            },
            NodeKind::Cell => {
                match row {
                    Some(mut r) => {
                        r.cells.push((node.start_column, node.end_column));
                        row = Some(r);
                        assert(with_row(cur->0, row).rows =~= add_cell(g.last(), x).rows);
                    },
                    None => {
                        row = None;
                        assert(cur is Some ==> g.last().rows.len() == 0);
                    },
                }
            },
            NodeKind::Other => {},
        }
        i = i + 1;
    }
    assert(ns.subrange(0, ns.len() as int) =~= ns);
    let ghost before = tables@.map_values(|t: TableNode| t@);
    match cur {
        Some(mut t) => {
            let ghost w = with_row(t, row);
            match row {
                Some(r) => {
                    t.rows.push(r);
                },
                None => {},
            }
            assert(t@.rows =~= w.rows);
            tables.push(t);
            assert(tables@.map_values(|t: TableNode| t@) =~= before.push(w));
        },
        None => {},
    }
    assert(tables@.map_values(|t: TableNode| t@) =~= group(ns));
    tables
}


pub open spec fn NL() -> u8 {
    0x0a
}

pub open spec fn PIPE() -> u8 {
    0x7c
}

pub open spec fn SPACE() -> u8 {
    0x20
}

pub open spec fn DASH() -> u8 {
    0x2d
}

pub open spec fn COLON() -> u8 {
    0x3a
}

pub open spec fn min(a: int, b: int) -> int {
    if a <= b {
        a
    } else {
        b
    }
}

pub open spec fn max(a: int, b: int) -> int {
    if a >= b {
        a
    } else {
        b
    }
}

/// `a - b`, or 0 where that would be negative.
pub open spec fn sat_sub(a: int, b: int) -> int {
    if a >= b {
        a - b
    } else {
        0
    }
}

/// The buffer's lines: the document cut at each `\n`, without the empty
/// piece after the trailing newline every document ends with.
pub open spec fn buffer_lines_spec(b: Seq<u8>) -> Seq<Seq<u8>> {
    let ls = split(b, NL());
    if ls.last().len() == 0 {
        ls.drop_last()
    } else {
        ls
    }
}

/// The buffer's lines. The input carries the trailing newline every document
/// ends with, which is not a line of its own.
pub fn buffer_lines(input: &str) -> (lines: Vec<&str>)
    ensures
        lines@.map_values(|l: &str| l.spec_bytes()) == buffer_lines_spec(input.spec_bytes()),
{
    let mut lines = split_lines(input);
    let ghost ls = split(input.spec_bytes(), NL());
    assert(lines@.map_values(|l: &str| l.spec_bytes()) == ls);
    let last = lines.len() - 1;
    assert(ls.last() == lines@[last as int].spec_bytes());
    let tail: &str = lines[last];
    let n = tail.as_bytes().len();
    assert(n == ls.last().len());
    if n == 0 {
        lines.pop();
        assert(lines@.map_values(|l: &str| l.spec_bytes()) =~= ls.drop_last());
        assert(ls.last().len() == 0);
        assert(buffer_lines_spec(input.spec_bytes()) == ls.drop_last());
    } else {
        assert(ls.last().len() != 0);
    }
    assert(lines@.map_values(|l: &str| l.spec_bytes()) =~= buffer_lines_spec(input.spec_bytes()));
    lines
}


/// One cell, as comrak found it in the buffer: its text with the padding
/// around it removed, taken verbatim from the buffer (comrak's own rendering
/// normalizes as it goes, and a half-typed `**bol` coming back as `\*\*bol`
/// is not something to do to someone mid-keystroke), and the 0-based byte
/// offset of that text within its line.
pub struct Cell<'a> {
    pub text: &'a str,
    pub start: usize,
}

pub struct CellView {
    pub text: Seq<u8>,
    pub start: usize,
}

impl<'a> View for Cell<'a> {
    type V = CellView;

    open spec fn view(&self) -> CellView {
        CellView { text: self.text.spec_bytes(), start: self.start }
    }
}

/// The cell comrak located between 1-based byte columns `sc` and `ec` of
/// `line`, trimmed of the padding around it. A row shorter than the table is
/// completed by comrak with cells that have no text behind them, whose span
/// is the single byte of the pipe that ended the row, so a lone pipe stands
/// for an empty cell. An empty cell still says where it is, so that a cursor
/// to the left of it is not mistaken for a cursor inside it.
pub open spec fn cell_spec(line: Seq<u8>, sc: usize, ec: usize) -> CellView {
    let start = min(sat_sub(sc as int, 1), line.len() as int);
    let end = min(ec as int, line.len() as int);
    if start > end || !is_char_boundary(line, start) || !is_char_boundary(line, end) {
        CellView { text: seq![], start: start as usize }
    } else {
        let raw = line.subrange(start, end);
        let text = trim(raw);
        if text.len() == 0 || text == seq![PIPE()] {
            CellView { text: seq![], start: start as usize }
        } else {
            CellView { text, start: (start + ws_run(raw, 0)) as usize }
        }
    }
}

/// The bytes of `line` past the last of these cell spans.
pub open spec fn cells_end(line: Seq<u8>, spans: Seq<(usize, usize)>) -> int
    decreases spans.len(),
{
    if spans.len() == 0 {
        0
    } else {
        max(cells_end(line, spans.drop_last()), min(spans.last().1 as int, line.len() as int))
    }
}

/// Whether everything of `line` from byte `end` on is the pipe that closed
/// the row, and whitespace.
pub open spec fn trailing_spec(line: Seq<u8>, end: int) -> bool {
    let at = min(end, line.len() as int);
    is_char_boundary(line, at) && {
        let rest = trim_start(line.subrange(at, line.len() as int));
        let after = if rest.len() > 0 && rest[0] == PIPE() {
            rest.subrange(1, rest.len() as int)
        } else {
            rest
        };
        is_blank(after)
    }
}

/// The byte length of what `line` holds in front of a row starting at
/// 1-based byte column `column`: the `> ` of a blockquote, or the indent of a
/// list item.
pub open spec fn prefix_spec(line: Seq<u8>, column: usize) -> usize {
    let end = min(sat_sub(column as int, 1), line.len() as int);
    if is_char_boundary(line, end) {
        end as usize
    } else {
        0
    }
}

proof fn lemma_trim_parts(raw: Seq<u8>)
    ensures
        ws_run(raw, 0) <= raw.len(),
        trim(raw) == raw.subrange(ws_run(raw, 0), ws_run(raw, 0) + trim(raw).len()),
{
    lemma_ws_run_bounds(raw, 0);
    let t = raw.subrange(ws_run(raw, 0), raw.len() as int);
    lemma_ws_back_bounds(t, 0, t.len() as int);
    assert(trim(raw) =~= raw.subrange(ws_run(raw, 0), ws_run(raw, 0) + trim(raw).len()));
}

/// The cell comrak located at `sc..=ec`, trimmed of the padding around it.
fn cell<'a>(line: &'a str, sc: usize, ec: usize) -> (c: Cell<'a>)
    ensures
        c@ == cell_spec(line.spec_bytes(), sc, ec),
{
    let b = line.as_bytes();
    let n = b.len();
    let s0 = if sc >= 1 { sc - 1 } else { 0 };
    let start = if s0 <= n { s0 } else { n };
    let end = if ec <= n { ec } else { n };
    proof {
        lemma_boundary_local(line.spec_bytes(), 0);
    }
    let none = slice(line, 0, 0);
    assert(none.spec_bytes() =~= Seq::<u8>::empty());
    if start > end || !line.is_char_boundary(start) || !line.is_char_boundary(end) {
        return Cell { text: none, start };
    }
    let raw = slice(line, start, end);
    let rb = raw.as_bytes();
    let ghost r = raw.spec_bytes();
    let lead = skip_ws(rb, 0);
    let tail = back_ws(rb, lead, rb.len());
    proof {
        lemma_trim_parts(r);
        let t = r.subrange(lead as int, r.len() as int);
        assert forall|k: int| 0 <= k <= t.len() implies ws_back(t, 0, k) == ws_back(r, lead as int, lead + k) - lead by {
            lemma_ws_back_shift(r, lead as int, k);
        }
        assert(trim(r).len() == tail - lead);
        lemma_boundary_local(r, 0);
        lemma_boundary_local(r, r.len() as int);
        lemma_ws_run_boundary(r, 0);
        lemma_ws_back_boundary(r, lead as int, r.len() as int);
    }
    let len = tail - lead;
    if len == 0 || (len == 1 && rb[lead] == 0x7c) {
        proof {
            if len == 1 {
                assert(trim(r) =~= seq![PIPE()]);
            }
        }
        return Cell { text: none, start };
    }
    proof {
        if trim(r) == seq![PIPE()] {
            assert(trim(r)[0] == rb@[lead as int]);
        }
    }
    let text = slice(raw, lead, tail);
    Cell { text, start: start + lead }
}

/// Walking back from `lo + k` within `b`, stopping at `lo`, is walking back
/// from `k` within what follows `lo`.
proof fn lemma_ws_back_shift(b: Seq<u8>, lo: int, k: int)
    requires
        0 <= lo <= b.len(),
        0 <= k <= b.len() - lo,
    ensures
        ws_back(b.subrange(lo, b.len() as int), 0, k) == ws_back(b, lo, lo + k) - lo,
    decreases k,
{
    let t = b.subrange(lo, b.len() as int);
    assert(crate::text::ws_before(t, 0, k) == crate::text::ws_before(b, lo, lo + k));
    if 0 < k && crate::text::ws_before(t, 0, k) > 0 {
        lemma_ws_back_shift(b, lo, k - crate::text::ws_before(t, 0, k));
    }
}

/// Whether everything after a row's last cell is the pipe that closed it.
fn trailing(line: &str, end: usize) -> (r: bool)
    ensures
        r == trailing_spec(line.spec_bytes(), end as int),
{
    let b = line.as_bytes();
    let n = b.len();
    let at = if end <= n { end } else { n };
    if !line.is_char_boundary(at) {
        return false;
    }
    let s = skip_ws(b, at);
    let ghost rest = trim_start(line.spec_bytes().subrange(at as int, n as int));
    proof {
        lemma_ws_run_shift(line.spec_bytes(), at as int, 0);
        assert(rest =~= line.spec_bytes().subrange(s as int, n as int));
    }
    let from = if s < n && b[s] == 0x7c { s + 1 } else { s };
    let e = skip_ws(b, from);
    proof {
        lemma_ws_run_shift(line.spec_bytes(), from as int, 0);
        let after = line.spec_bytes().subrange(from as int, n as int);
        if s < n && b[s as int] == 0x7c {
            assert(rest.subrange(1, rest.len() as int) =~= after);
        } else {
            assert(rest =~= after);
        }
    }
    e == n
}

/// Skipping whitespace from `lo + k` within `b` is skipping it from `k`
/// within what follows `lo`.
proof fn lemma_ws_run_shift(b: Seq<u8>, lo: int, k: int)
    requires
        0 <= lo <= b.len(),
        0 <= k <= b.len() - lo,
    ensures
        ws_run(b.subrange(lo, b.len() as int), k) == ws_run(b, lo + k) - lo,
    decreases b.len() - lo - k,
{
    let t = b.subrange(lo, b.len() as int);
    assert(crate::text::ws_at(t, k) == crate::text::ws_at(b, lo + k));
    if 0 <= k < t.len() && crate::text::ws_at(t, k) > 0 {
        lemma_ws_run_shift(b, lo, k + crate::text::ws_at(t, k));
    }
}

/// The byte length of the line's prefix in front of a row starting at
/// 1-based column `column`.
fn prefix(line: &str, column: usize) -> (p: usize)
    ensures
        p == prefix_spec(line.spec_bytes(), column),
        p <= line.spec_bytes().len(),
        is_char_boundary(line.spec_bytes(), p as int),
{
    let n = line.as_bytes().len();
    let s0 = if column >= 1 { column - 1 } else { 0 };
    let end = if s0 <= n { s0 } else { n };
    if line.is_char_boundary(end) {
        end
    } else {
        proof {
            lemma_boundary_local(line.spec_bytes(), 0);
        }
        0
    }
}


/// One row of the table, and the buffer line it sits on.
pub struct Row<'a> {
    /// The 1-based line the row is on.
    pub line: usize,
    /// Whatever the buffer puts in front of the row: the `> ` of a
    /// blockquote, or the indent of a list item.
    pub prefix: &'a str,
    pub cells: Vec<Cell<'a>>,
}

pub struct RowView {
    pub line: usize,
    pub prefix: Seq<u8>,
    pub cells: Seq<CellView>,
}

impl<'a> View for Row<'a> {
    type V = RowView;

    open spec fn view(&self) -> RowView {
        RowView {
            line: self.line,
            prefix: self.prefix.spec_bytes(),
            cells: self.cells@.map_values(|c: Cell<'a>| c@),
        }
    }
}

/// The row comrak found at `rn`, its cells read out of the buffer; `None`
/// when its line is not in the buffer, or when the row carries text beyond
/// its last cell. GFM ignores that surplus, so it has no cell to be rendered
/// from, and rewriting the row would silently delete it.
pub open spec fn row_spec(rn: RowNodeView, lines: Seq<Seq<u8>>) -> Option<RowView> {
    if rn.start_line == 0 || rn.start_line > lines.len() {
        None
    } else {
        let line = lines[rn.start_line - 1];
        if !trailing_spec(line, cells_end(line, rn.cells)) {
            None
        } else {
            Some(
                RowView {
                    line: rn.start_line,
                    prefix: line.subrange(0, prefix_spec(line, rn.start_column) as int),
                    cells: rn.cells.map_values(|c: (usize, usize)| cell_spec(line, c.0, c.1)),
                },
            )
        }
    }
}

/// Each of these rows read, or `None` when any of them cannot be.
pub open spec fn each_row_spec(rns: Seq<RowNodeView>, lines: Seq<Seq<u8>>) -> Option<Seq<RowView>>
    decreases rns.len(),
{
    if rns.len() == 0 {
        Some(seq![])
    } else {
        match each_row_spec(rns.drop_last(), lines) {
            None => None,
            Some(rs) => match row_spec(rns.last(), lines) {
                None => None,
                Some(r) => Some(rs.push(r)),
            },
        }
    }
}

/// Every row of a table, read out of the buffer; `None` when the table has
/// no rows, or when any row cannot be read.
pub open spec fn rows_spec(rns: Seq<RowNodeView>, lines: Seq<Seq<u8>>) -> Option<Seq<RowView>> {
    if rns.len() == 0 {
        None
    } else {
        each_row_spec(rns, lines)
    }
}

proof fn lemma_rows_none(rns: Seq<RowNodeView>, lines: Seq<Seq<u8>>, k: int)
    requires
        0 <= k <= rns.len(),
        each_row_spec(rns.subrange(0, k), lines) is None,
    ensures
        each_row_spec(rns, lines) is None,
    decreases rns.len() - k,
{
    if k < rns.len() {
        assert(rns.subrange(0, k + 1).drop_last() =~= rns.subrange(0, k));
        lemma_rows_none(rns, lines, k + 1);
    } else {
        assert(rns.subrange(0, k) =~= rns);
    }
}

pub open spec fn lines_view(lines: Seq<&str>) -> Seq<Seq<u8>> {
    lines.map_values(|l: &str| l.spec_bytes())
}

/// The row comrak found at `rn`, read out of the buffer.
fn read_row<'a>(rn: &RowNode, lines: &Vec<&'a str>) -> (r: Option<Row<'a>>)
    ensures
        match r {
            None => row_spec(rn@, lines_view(lines@)) is None,
            Some(row) => row_spec(rn@, lines_view(lines@)) == Some(row@),
        },
{
    let ghost ls = lines_view(lines@);
    let index = rn.start_line;
    if index == 0 || index > lines.len() {
        return None;
    }
    let line: &'a str = lines[index - 1];
    assert(line.spec_bytes() == ls[index - 1]);
    let ghost spans = rn.cells@;
    let mut cells: Vec<Cell<'a>> = Vec::new();
    let mut end: usize = 0;
    let mut j: usize = 0;
    while j < rn.cells.len()
        invariant
            spans == rn.cells@,
            j <= spans.len(),
            cells@.map_values(|c: Cell<'a>| c@) == spans.subrange(0, j as int).map_values(
                |c: (usize, usize)| cell_spec(line.spec_bytes(), c.0, c.1),
            ),
            end == cells_end(line.spec_bytes(), spans.subrange(0, j as int)),
            end <= line.spec_bytes().len(),
        decreases spans.len() - j,
    {
        let (sc, ec) = rn.cells[j];
        assert(spans[j as int] == (sc, ec));
        let ghost before = cells@.map_values(|c: Cell<'a>| c@);
        let c = cell(line, sc, ec);
        cells.push(c);
        assert(cells@.map_values(|c: Cell<'a>| c@) =~= before.push(c@));
        let n = line.as_bytes().len();
        let e = if ec <= n { ec } else { n };
        if e > end {
            end = e;
        }
        assert(spans.subrange(0, j + 1).drop_last() =~= spans.subrange(0, j as int));
        j = j + 1;
        assert(cells@.map_values(|c: Cell<'a>| c@) =~= spans.subrange(0, j as int).map_values(
            |c: (usize, usize)| cell_spec(line.spec_bytes(), c.0, c.1),
        ));
    }
    assert(spans.subrange(0, spans.len() as int) =~= spans);
    if !trailing(line, end) {
        return None;
    }
    let p = prefix(line, rn.start_column);
    let pre = slice(line, 0, p);
    proof {
        lemma_boundary_local(line.spec_bytes(), 0);
    }
    Some(Row { line: index, prefix: pre, cells })
}

/// Every row of the table, with its cells read out of the buffer; `None`
/// when any row cannot be.
fn collect_rows<'a>(t: &TableNode, lines: &Vec<&'a str>) -> (r: Option<Vec<Row<'a>>>)
    ensures
        match r {
            None => rows_spec(t@.rows, lines_view(lines@)) is None,
            Some(rows) => rows_spec(t@.rows, lines_view(lines@)) == Some(
                rows@.map_values(|r: Row<'a>| r@),
            ),
        },
{
    let ghost ls = lines_view(lines@);
    let ghost rns = t@.rows;
    if t.rows.len() == 0 {
        return None;
    }
    let mut rows: Vec<Row<'a>> = Vec::new();
    let mut i: usize = 0;
    assert(rns.subrange(0, 0) =~= Seq::<RowNodeView>::empty());
    assert(rows@.map_values(|r: Row<'a>| r@) =~= Seq::<RowView>::empty());
    while i < t.rows.len()
        invariant
            rns == t@.rows,
            ls == lines_view(lines@),
            rns.len() == t.rows@.len(),
            i <= rns.len(),
            rns.len() > 0,
            each_row_spec(rns.subrange(0, i as int), ls) == Some(rows@.map_values(|r: Row<'a>| r@)),
        decreases rns.len() - i,
    {
        assert(t.rows@[i as int]@ == rns[i as int]);
        assert(rns.subrange(0, i + 1).drop_last() =~= rns.subrange(0, i as int));
        assert(rns.subrange(0, i + 1).last() == rns[i as int]);
        match read_row(&t.rows[i], lines) {
            None => {
                proof {
                    lemma_rows_none(rns, ls, i + 1);
                }
                return None;
            },
            Some(row) => {
                let ghost before = rows@.map_values(|r: Row<'a>| r@);
                rows.push(row);
                assert(rows@.map_values(|r: Row<'a>| r@) =~= before.push(row@));
            },
        }
        i = i + 1;
    }
    assert(rns.subrange(0, rns.len() as int) =~= rns);
    Some(rows)
}

/// How many columns `text` takes up on screen, as unicode-width reckons it.
pub uninterp spec fn display_width(text: Seq<char>) -> usize;

/// unicode-width's `UnicodeWidthStr::width`: the contract claims only that
/// the width is a function of the text.
#[verifier::external_body]
fn str_width(text: &str) -> (w: usize)
    ensures
        w == display_width(text@),
{
    text.width()
}

/// The display width of the UTF-8 text `t`; nothing takes up no room.
pub open spec fn text_width(t: Seq<u8>) -> usize {
    if t.len() == 0 {
        0
    } else {
        display_width(decode_utf8(t))
    }
}

fn width_of(text: &str) -> (w: usize)
    ensures
        w == text_width(text.spec_bytes()),
{
    if text.as_bytes().len() == 0 {
        0
    } else {
        proof {
            vstd::utf8::encode_utf8_decode_utf8(text@);
        }
        str_width(text)
    }
}

/// Narrowest a column may be. Anything less leaves no room for a `---`
/// delimiter, which every column needs to keep the table a table.
pub const MIN_WIDTH: usize = 3;

/// The display width of column `c` over the first `k` rows: the widest cell
/// in it, and never less than `MIN_WIDTH`.
pub open spec fn column_width(rows: Seq<RowView>, c: int, k: int) -> usize
    decreases k,
{
    if k <= 0 {
        MIN_WIDTH
    } else {
        let w = if c < rows[k - 1].cells.len() {
            text_width(rows[k - 1].cells[c].text)
        } else {
            0
        };
        let before = column_width(rows, c, k - 1);
        if before >= w {
            before
        } else {
            w
        }
    }
}

/// The display width of each of `n` columns.
pub open spec fn widths_spec(rows: Seq<RowView>, n: int) -> Seq<usize> {
    Seq::new(n as nat, |c: int| column_width(rows, c, rows.len() as int))
}

/// The display width of each column: the widest cell in it, and never so
/// narrow that the delimiter row cannot be written.
fn widths(rows: &Vec<Row>, n: usize) -> (w: Vec<usize>)
    ensures
        w@ == widths_spec(rows@.map_values(|r: Row| r@), n as int),
{
    let ghost rs = rows@.map_values(|r: Row| r@);
    let mut w: Vec<usize> = Vec::new();
    let mut c: usize = 0;
    while c < n
        invariant
            rs == rows@.map_values(|r: Row| r@),
            c <= n,
            w@ == widths_spec(rs, c as int),
        decreases n - c,
    {
        let mut best: usize = MIN_WIDTH;
        let mut k: usize = 0;
        while k < rows.len()
            invariant
                rs == rows@.map_values(|r: Row| r@),
                rs.len() == rows@.len(),
                k <= rs.len(),
                best == column_width(rs, c as int, k as int),
            decreases rs.len() - k,
        {
            let row = &rows[k];
            assert(row@ == rs[k as int]);
            if c < row.cells.len() {
                assert(row.cells@[c as int]@ == rs[k as int].cells[c as int]);
                let cw = width_of(row.cells[c].text);
                if cw > best {
                    best = cw;
                }
            }
            k = k + 1;
        }
        w.push(best);
        c = c + 1;
        assert(w@ =~= widths_spec(rs, c as int));
    }
    w
}


/// A table comrak found, read out of the document it was found in.
pub struct Table<'a> {
    /// 1-based, inclusive line range the table occupies.
    pub first: usize,
    pub last: usize,
    /// The line the delimiter row is on. It is not a node of its own: comrak
    /// folds it into the table's alignments, and it is always the line after
    /// the header.
    pub separator: usize,
    /// Taken from the header and used for every line, so a row that was
    /// quoted or indented more loosely than its header comes back matching it.
    pub prefix: &'a str,
    pub aligns: Vec<Align>,
    pub widths: Vec<usize>,
    pub rows: Vec<Row<'a>>,
}

pub struct TableView {
    pub first: usize,
    pub last: usize,
    pub separator: usize,
    pub prefix: Seq<u8>,
    pub aligns: Seq<Align>,
    pub widths: Seq<usize>,
    pub rows: Seq<RowView>,
}

impl<'a> View for Table<'a> {
    type V = TableView;

    open spec fn view(&self) -> TableView {
        TableView {
            first: self.first,
            last: self.last,
            separator: self.separator,
            prefix: self.prefix.spec_bytes(),
            aligns: self.aligns@,
            widths: self.widths@,
            rows: self.rows@.map_values(|r: Row<'a>| r@),
        }
    }
}

/// The alignment comrak's `TableAlignment` code stands for.
pub open spec fn align_of(code: u8) -> Align {
    if code == 1 {
        Align::Left
    } else if code == 2 {
        Align::Center
    } else if code == 3 {
        Align::Right
    } else {
        Align::Plain
    }
}

fn align_from(code: u8) -> (a: Align)
    ensures
        a == align_of(code),
{
    if code == 1 {
        Align::Left
    } else if code == 2 {
        Align::Center
    } else if code == 3 {
        Align::Right
    } else {
        Align::Plain
    }
}

/// The table comrak found at `tn`, if it is one this module can rewrite:
/// one whose lines lie in the buffer, whose rows can all be read, and whose
/// delimiter row, the line after the header, lies within it.
pub open spec fn read_spec(tn: TableNodeView, lines: Seq<Seq<u8>>) -> Option<TableView> {
    if tn.start_line == 0 || tn.start_line > tn.end_line || tn.end_line > lines.len() {
        None
    } else {
        match rows_spec(tn.rows, lines) {
            None => None,
            Some(rows) => if rows.len() == 0 || rows[0].line + 1 > tn.end_line {
                None
            } else {
                Some(
                    TableView {
                        first: tn.start_line,
                        last: tn.end_line,
                        separator: (rows[0].line + 1) as usize,
                        prefix: rows[0].prefix,
                        aligns: tn.aligns.map_values(|c: u8| align_of(c)),
                        widths: widths_spec(rows, tn.aligns.len() as int),
                        rows,
                    },
                )
            },
        }
    }
}

/// Read the table comrak found at `tn`, if it is one this module can rewrite.
fn read<'a>(tn: &TableNode, lines: &Vec<&'a str>) -> (r: Option<Table<'a>>)
    ensures
        match r {
            None => read_spec(tn@, lines_view(lines@)) is None,
            Some(t) => read_spec(tn@, lines_view(lines@)) == Some(t@),
        },
{
    if tn.start_line == 0 || tn.start_line > tn.end_line || tn.end_line > lines.len() {
        return None;
    }
    let rows = match collect_rows(tn, lines) {
        None => {
            return None;
        },
        Some(rows) => rows,
    };
    let ghost rs = rows@.map_values(|r: Row<'a>| r@);
    if rows.len() == 0 {
        return None;
    }
    assert(rows@[0]@ == rs[0]);
    let first_line = rows[0].line;
    if first_line >= tn.end_line {
        return None;
    }
    let mut aligns: Vec<Align> = Vec::new();
    let mut i: usize = 0;
    while i < tn.aligns.len()
        invariant
            i <= tn.aligns@.len(),
            aligns@ == tn.aligns@.subrange(0, i as int).map_values(|c: u8| align_of(c)),
        decreases tn.aligns@.len() - i,
    {
        aligns.push(align_from(tn.aligns[i]));
        i = i + 1;
        assert(aligns@ =~= tn.aligns@.subrange(0, i as int).map_values(|c: u8| align_of(c)));
    }
    assert(tn.aligns@.subrange(0, tn.aligns@.len() as int) =~= tn.aligns@);
    let w = widths(&rows, tn.aligns.len());
    let prefix = rows[0].prefix;
    Some(Table {
        first: tn.start_line,
        last: tn.end_line,
        separator: first_line + 1,
        prefix,
        aligns,
        widths: w,
        rows,
    })
}

/// `n` dashes, and never none.
pub open spec fn dashes(n: int) -> Seq<u8> {
    Seq::new(if n >= 1 { n as nat } else { 1 }, |i: int| DASH())
}

/// `n` spaces.
pub open spec fn spaces(n: int) -> Seq<u8> {
    Seq::new(if n >= 0 { n as nat } else { 0 }, |i: int| SPACE())
}

/// The delimiter cell of a column `w` wide with alignment `a`: dashes, with
/// a colon on the side, or sides, the column is aligned to.
pub open spec fn delimiter_spec(a: Align, w: usize) -> Seq<u8> {
    match a {
        Align::Center => seq![COLON()] + dashes(sat_sub(w as int, 2)) + seq![COLON()],
        Align::Right => dashes(sat_sub(w as int, 1)) + seq![COLON()],
        Align::Left => seq![COLON()] + dashes(sat_sub(w as int, 1)),
        Align::Plain => dashes(w as int),
    }
}

pub open spec fn delimiters_spec(aligns: Seq<Align>, widths: Seq<usize>) -> Seq<Seq<u8>> {
    Seq::new(min(aligns.len() as int, widths.len() as int) as nat, |i: int| delimiter_spec(aligns[i], widths[i]))
}

/// The row's cells, each padded out with spaces to its column's display
/// width; a column the row has no cell in is padded from nothing.
pub open spec fn padded_spec(row: RowView, widths: Seq<usize>) -> Seq<Seq<u8>> {
    Seq::new(
        widths.len(),
        |c: int|
            {
                let text = if c < row.cells.len() {
                    row.cells[c].text
                } else {
                    Seq::<u8>::empty()
                };
                text + spaces(sat_sub(widths[c] as int, text_width(text) as int))
            },
    )
}

/// The pieces joined with `sep` between each two.
pub open spec fn join_with(pieces: Seq<Seq<u8>>, sep: Seq<u8>) -> Seq<u8>
    decreases pieces.len(),
{
    if pieces.len() == 0 {
        Seq::<u8>::empty()
    } else if pieces.len() == 1 {
        pieces[0]
    } else {
        join_with(pieces.drop_last(), sep) + sep + pieces.last()
    }
}

/// A table line: the prefix, then the cells between pipes, one space inside
/// each pipe.
pub open spec fn render_spec(prefix: Seq<u8>, cells: Seq<Seq<u8>>) -> Seq<u8> {
    prefix + seq![PIPE(), SPACE()] + join_with(cells, seq![SPACE(), PIPE(), SPACE()]) + seq![SPACE(), PIPE()]
}

pub open spec fn strings_view(v: Seq<String>) -> Seq<Seq<u8>> {
    v.map_values(|s: String| encode_utf8(s@))
}

fn push_dashes(out: &mut String, n: usize)
    ensures
        encode_utf8(final(out)@) == encode_utf8(old(out)@) + dashes(n as int),
{
    let count = if n >= 1 { n } else { 1 };
    let mut i: usize = 0;
    assert(encode_utf8(out@) =~= encode_utf8(old(out)@) + Seq::new(0, |k: int| DASH()));
    while i < count
        invariant
            i <= count,
            encode_utf8(out@) == encode_utf8(old(out)@) + Seq::new(i as nat, |k: int| DASH()),
        decreases count - i,
    {
        push_ascii(out, '-');
        i = i + 1;
        assert(encode_utf8(out@) =~= encode_utf8(old(out)@) + Seq::new(i as nat, |k: int| DASH()));
    }
}

fn push_spaces(out: &mut String, n: usize)
    ensures
        encode_utf8(final(out)@) == encode_utf8(old(out)@) + spaces(n as int),
{
    let mut i: usize = 0;
    assert(encode_utf8(out@) =~= encode_utf8(old(out)@) + Seq::new(0, |k: int| SPACE()));
    while i < n
        invariant
            i <= n,
            encode_utf8(out@) == encode_utf8(old(out)@) + Seq::new(i as nat, |k: int| SPACE()),
        decreases n - i,
    {
        push_ascii(out, ' ');
        i = i + 1;
        assert(encode_utf8(out@) =~= encode_utf8(old(out)@) + Seq::new(i as nat, |k: int| SPACE()));
    }
}

fn delimiter(a: Align, w: usize) -> (d: String)
    ensures
        encode_utf8(d@) == delimiter_spec(a, w),
{
    let mut d = String::new();
    assert(encode_utf8(d@) =~= Seq::<u8>::empty());
    match a {
        Align::Center => {
            push_ascii(&mut d, ':');
            push_dashes(&mut d, if w >= 2 { w - 2 } else { 0 });
            push_ascii(&mut d, ':');
            assert(encode_utf8(d@) =~= delimiter_spec(a, w));
        },
        Align::Right => {
            push_dashes(&mut d, if w >= 1 { w - 1 } else { 0 });
            push_ascii(&mut d, ':');
            assert(encode_utf8(d@) =~= delimiter_spec(a, w));
        },
        Align::Left => {
            push_ascii(&mut d, ':');
            push_dashes(&mut d, if w >= 1 { w - 1 } else { 0 });
            assert(encode_utf8(d@) =~= delimiter_spec(a, w));
        },
        Align::Plain => {
            push_dashes(&mut d, w);
            assert(encode_utf8(d@) =~= delimiter_spec(a, w));
        },
    }
    d
}

fn delimiters(aligns: &Vec<Align>, widths: &Vec<usize>) -> (d: Vec<String>)
    ensures
        strings_view(d@) == delimiters_spec(aligns@, widths@),
{
    let n = if aligns.len() <= widths.len() { aligns.len() } else { widths.len() };
    let mut d: Vec<String> = Vec::new();
    let mut i: usize = 0;
    while i < n
        invariant
            n == min(aligns@.len() as int, widths@.len() as int),
            i <= n,
            strings_view(d@) == delimiters_spec(aligns@, widths@).subrange(0, i as int),
        decreases n - i,
    {
        let ghost before = strings_view(d@);
        d.push(delimiter(aligns[i], widths[i]));
        i = i + 1;
        assert(strings_view(d@) =~= before.push(delimiter_spec(aligns@[i - 1], widths@[i - 1])));
        assert(strings_view(d@) =~= delimiters_spec(aligns@, widths@).subrange(0, i as int));
    }
    assert(delimiters_spec(aligns@, widths@).subrange(0, n as int) =~= delimiters_spec(aligns@, widths@));
    d
}

/// The row's cells, each padded out to its column's width.
fn padded(row: &Row, widths: &Vec<usize>) -> (p: Vec<String>)
    ensures
        strings_view(p@) == padded_spec(row@, widths@),
{
    let mut p: Vec<String> = Vec::new();
    let mut c: usize = 0;
    while c < widths.len()
        invariant
            c <= widths@.len(),
            strings_view(p@) == padded_spec(row@, widths@).subrange(0, c as int),
        decreases widths@.len() - c,
    {
        let ghost before = strings_view(p@);
        let mut s = String::new();
        assert(encode_utf8(s@) =~= Seq::<u8>::empty());
        let tw = if c < row.cells.len() {
            assert(row.cells@[c as int]@ == row@.cells[c as int]);
            push_str(&mut s, row.cells[c].text);
            width_of(row.cells[c].text)
        } else {
            0
        };
        let ghost text = if c < row@.cells.len() {
            row@.cells[c as int].text
        } else {
            Seq::<u8>::empty()
        };
        assert(encode_utf8(s@) =~= text);
        assert(tw == text_width(text));
        let w = widths[c];
        push_spaces(&mut s, if w >= tw { w - tw } else { 0 });
        assert(encode_utf8(s@) =~= padded_spec(row@, widths@)[c as int]);
        p.push(s);
        assert(strings_view(p@) =~= before.push(padded_spec(row@, widths@)[c as int]));
        c = c + 1;
        assert(strings_view(p@) =~= padded_spec(row@, widths@).subrange(0, c as int));
    }
    assert(padded_spec(row@, widths@).subrange(0, widths@.len() as int) =~= padded_spec(row@, widths@));
    p
}

/// A table line out of its prefix and cells.
fn render(prefix: &str, cells: &Vec<String>) -> (line: String)
    ensures
        encode_utf8(line@) == render_spec(prefix.spec_bytes(), strings_view(cells@)),
{
    let ghost cs = strings_view(cells@);
    let mut out = String::new();
    assert(encode_utf8(out@) =~= Seq::<u8>::empty());
    push_str(&mut out, prefix);
    push_ascii(&mut out, '|');
    push_ascii(&mut out, ' ');
    let ghost head = prefix.spec_bytes() + seq![PIPE(), SPACE()];
    assert(encode_utf8(out@) =~= head + join_with(cs.subrange(0, 0), seq![SPACE(), PIPE(), SPACE()]));
    let mut k: usize = 0;
    while k < cells.len()
        invariant
            cs == strings_view(cells@),
            k <= cells@.len(),
            encode_utf8(out@) == head + join_with(cs.subrange(0, k as int), seq![SPACE(), PIPE(), SPACE()]),
        decreases cells@.len() - k,
    {
        if k > 0 {
            push_ascii(&mut out, ' ');
            push_ascii(&mut out, '|');
            push_ascii(&mut out, ' ');
        }
        push_str(&mut out, cells[k].as_str());
        assert(cs.subrange(0, k + 1).drop_last() =~= cs.subrange(0, k as int));
        assert(cs[k as int] == encode_utf8(cells@[k as int]@));
        k = k + 1;
        assert(encode_utf8(out@) =~= head + join_with(cs.subrange(0, k as int), seq![SPACE(), PIPE(), SPACE()]));
    }
    push_ascii(&mut out, ' ');
    push_ascii(&mut out, '|');
    assert(cs.subrange(0, cs.len() as int) =~= cs);
    assert(encode_utf8(out@) =~= render_spec(prefix.spec_bytes(), cs));
    out
}


/// The first of `rows`, from the `i`-th on, that sits on line `n`.
pub open spec fn first_row(rows: Seq<RowView>, n: usize, i: int) -> Option<int>
    decreases rows.len() - i,
{
    if i < 0 || i >= rows.len() {
        None
    } else if rows[i].line == n {
        Some(i)
    } else {
        first_row(rows, n, i + 1)
    }
}

/// Line `n` of the rewritten table: the delimiter row, a row padded out to
/// the column widths, or, for a line comrak gave no row, the line as it is.
pub open spec fn line_at(t: TableView, lines: Seq<Seq<u8>>, n: usize) -> Seq<u8> {
    if n == t.separator {
        render_spec(t.prefix, delimiters_spec(t.aligns, t.widths))
    } else {
        match first_row(t.rows, n, 0) {
            Some(i) => render_spec(t.prefix, padded_spec(t.rows[i], t.widths)),
            None => lines[n - 1],
        }
    }
}

/// The table's lines, padded out to its column widths.
pub open spec fn table_lines(t: TableView, lines: Seq<Seq<u8>>) -> Seq<Seq<u8>> {
    Seq::new((t.last - t.first + 1) as nat, |k: int| line_at(t, lines, (t.first + k) as usize))
}

fn find_row(rows: &Vec<Row>, n: usize) -> (r: Option<usize>)
    ensures
        match r {
            None => first_row(rows@.map_values(|r: Row| r@), n, 0) is None,
            Some(i) => first_row(rows@.map_values(|r: Row| r@), n, 0) == Some(i as int) && i < rows@.len(),
        },
{
    let ghost rs = rows@.map_values(|r: Row| r@);
    let mut i: usize = 0;
    while i < rows.len()
        invariant
            rs == rows@.map_values(|r: Row| r@),
            i <= rows@.len(),
            first_row(rs, n, 0) == first_row(rs, n, i as int),
        decreases rows@.len() - i,
    {
        assert(rows@[i as int]@ == rs[i as int]);
        if rows[i].line == n {
            return Some(i);
        }
        i = i + 1;
    }
    None
}

/// The table's lines, padded out to its column widths.
fn render_table(t: &Table, lines: &Vec<&str>) -> (out: Vec<String>)
    requires
        1 <= t.first <= t.last <= lines@.len(),
    ensures
        strings_view(out@) == table_lines(t@, lines_view(lines@)),
{
    let ghost ls = lines_view(lines@);
    let ghost tl = table_lines(t@, ls);
    let mut out: Vec<String> = Vec::new();
    let count = t.last - t.first + 1;
    let mut k: usize = 0;
    while k < count
        invariant
            1 <= t.first <= t.last <= lines@.len(),
            count == t.last - t.first + 1,
            ls == lines_view(lines@),
            tl == table_lines(t@, ls),
            k <= count,
            strings_view(out@) == tl.subrange(0, k as int),
        decreases count - k,
    {
        let n = t.first + k;
        let ghost before = strings_view(out@);
        let line = if n == t.separator {
            let d = delimiters(&t.aligns, &t.widths);
            render(t.prefix, &d)
        } else {
            match find_row(&t.rows, n) {
                Some(i) => {
                    assert(t.rows@[i as int]@ == t@.rows[i as int]);
                    let p = padded(&t.rows[i], &t.widths);
                    render(t.prefix, &p)
                },
                None => {
                    assert(ls[n - 1] == lines@[n - 1].spec_bytes());
                    owned(lines[n - 1])
                },
            }
        };
        assert(encode_utf8(line@) == tl[k as int]);
        out.push(line);
        k = k + 1;
        assert(strings_view(out@) =~= before.push(tl[k - 1]));
        assert(strings_view(out@) =~= tl.subrange(0, k as int));
    }
    assert(tl.subrange(0, count as int) =~= tl);
    out
}

/// The cell the cursor is in, and how far into its text, for a cursor at
/// byte `col`: the last cell starting at or before it, at most the length
/// of its text in; the first cell, at its start, when there is none.
pub open spec fn cursor_cell(cells: Seq<CellView>, col: usize) -> (int, int)
    decreases cells.len(),
{
    if cells.len() == 0 {
        (0, 0)
    } else {
        let c = cells.last();
        if col >= c.start {
            ((cells.len() - 1) as int, min(col - c.start, c.text.len() as int))
        } else {
            cursor_cell(cells.drop_last(), col)
        }
    }
}

/// The bytes the first `k` columns take up in a rewritten line, a ` | `
/// for each included.
pub open spec fn widths_before(w: Seq<usize>, k: int) -> int
    decreases k,
{
    if k <= 0 {
        0
    } else {
        widths_before(w, k - 1) + w[k - 1] + 3
    }
}

/// Where the cursor lands once the table has been rewritten: the same offset
/// into the same cell it was in before, which is what keeps typing in a cell
/// from being interrupted by the realignment around it. `None` when the
/// cursor is not on a row, which means it is on the delimiter line, and when
/// the column would not fit in a `usize`.
pub open spec fn cursor_spec(t: TableView, row: usize, col: usize) -> Option<usize> {
    match first_row(t.rows, row, 0) {
        None => None,
        Some(i) => {
            let (column, offset) = cursor_cell(t.rows[i].cells, col);
            let v = t.prefix.len() + 2 + widths_before(t.widths, min(column, t.widths.len() as int)) + offset;
            if v <= usize::MAX {
                Some(v as usize)
            } else {
                None
            }
        },
    }
}

proof fn lemma_widths_before_mono(w: Seq<usize>, j: int, k: int)
    requires
        0 <= j <= k,
    ensures
        widths_before(w, j) <= widths_before(w, k),
    decreases k - j,
{
    if j < k {
        lemma_widths_before_mono(w, j, k - 1);
    }
}

/// Where the cursor lands once the table has been rewritten.
fn cursor(t: &Table, row: usize, col: usize) -> (r: Option<usize>)
    ensures
        r == cursor_spec(t@, row, col),
{
    let i = match find_row(&t.rows, row) {
        None => {
            return None;
        },
        Some(i) => i,
    };
    let cells = &t.rows[i].cells;
    let ghost cs = t@.rows[i as int].cells;
    assert(cs == cells@.map_values(|c: Cell| c@));
    let mut column: usize = 0;
    let mut offset: usize = 0;
    let mut j: usize = 0;
    while j < cells.len()
        invariant
            cs == cells@.map_values(|c: Cell| c@),
            j <= cells@.len(),
            (column as int, offset as int) == cursor_cell(cs.subrange(0, j as int), col),
        decreases cells@.len() - j,
    {
        assert(cells@[j as int]@ == cs[j as int]);
        assert(cs.subrange(0, j + 1).drop_last() =~= cs.subrange(0, j as int));
        let c = &cells[j];
        if col >= c.start {
            column = j;
            let d = col - c.start;
            let tl = c.text.as_bytes().len();
            offset = if d <= tl { d } else { tl };
        }
        j = j + 1;
    }
    assert(cs.subrange(0, cs.len() as int) =~= cs);
    let k = if column <= t.widths.len() { column } else { t.widths.len() };
    let ghost total = t@.prefix.len() + 2 + widths_before(t@.widths, k as int) + offset;
    assert(cursor_spec(t@, row, col) == if total <= usize::MAX {
        Some(total as usize)
    } else {
        None::<usize>
    });
    let p = t.prefix.as_bytes().len();
    if p > usize::MAX - 2 {
        proof {
            lemma_widths_before_mono(t@.widths, 0, k as int);
        }
        return None;
    }
    let mut acc: usize = p + 2;
    let mut m: usize = 0;
    while m < k
        invariant
            k <= t.widths@.len(),
            m <= k,
            acc == p + 2 + widths_before(t@.widths, m as int),
            p == t@.prefix.len(),
            total == t@.prefix.len() + 2 + widths_before(t@.widths, k as int) + offset,
            cursor_spec(t@, row, col) == if total <= usize::MAX {
                Some(total as usize)
            } else {
                None::<usize>
            },
        decreases k - m,
    {
        let w = t.widths[m];
        if acc > usize::MAX - 3 || acc + 3 > usize::MAX - w {
            proof {
                lemma_widths_before_mono(t@.widths, m + 1, k as int);
            }
            return None;
        }
        acc = acc + w + 3;
        m = m + 1;
    }
    if acc > usize::MAX - offset {
        return None;
    }
    Some(acc + offset)
}

/// `o` with the lines from index `at` on replaced by `new`.
pub open spec fn splice(o: Seq<Seq<u8>>, at: int, new: Seq<Seq<u8>>) -> Seq<Seq<u8>> {
    Seq::new(o.len(), |k: int| if at <= k < at + new.len() { new[k - at] } else { o[k] })
}

/// `lines` with each table among `tables` that can be rewritten rewritten.
pub open spec fn apply_tables(lines: Seq<Seq<u8>>, tables: Seq<TableNodeView>) -> Seq<Seq<u8>>
    decreases tables.len(),
{
    if tables.len() == 0 {
        lines
    } else {
        let o = apply_tables(lines, tables.drop_last());
        match read_spec(tables.last(), lines) {
            None => o,
            Some(t) => splice(o, t.first - 1, table_lines(t, lines)),
        }
    }
}

/// The document `b` with every table comrak found in it, as `nodes`,
/// aligned; its trailing newline, if any, kept.
pub open spec fn align_spec(b: Seq<u8>, nodes: Seq<MdNodeView>) -> Seq<u8> {
    let text = join(apply_tables(buffer_lines_spec(b), group(nodes)), NL());
    if b.len() > 0 && b.last() == NL() {
        text.push(NL())
    } else {
        text
    }
}

/// The nodes of `input` as comrak reads it with `settings`.
pub open spec fn nodes_of(input: Seq<char>, settings: SettingsView) -> Seq<MdNodeView> {
    parsed_nodes(input, options_spec(settings))
}

fn read_nodes(input: &str, settings: &Settings) -> (nodes: Vec<MdNode>)
    ensures
        nodes@.map_values(|n: MdNode| n@) == nodes_of(input@, settings@),
{
    let c = options(settings);
    parse_nodes(
        input,
        c.table,
        c.strikethrough,
        c.tasklist,
        c.alerts,
        c.autolink,
        c.footnotes,
        c.math_dollars,
        c.front_matter,
    )
}

/// The lines joined with `\n`.
fn join_lines(lines: &Vec<String>) -> (text: String)
    ensures
        encode_utf8(text@) == join(strings_view(lines@), NL()),
{
    let ghost ls = strings_view(lines@);
    let mut text = String::new();
    let mut k: usize = 0;
    assert(encode_utf8(text@) =~= join(ls.subrange(0, 0), NL()));
    while k < lines.len()
        invariant
            ls == strings_view(lines@),
            k <= lines@.len(),
            encode_utf8(text@) == join(ls.subrange(0, k as int), NL()),
        decreases lines@.len() - k,
    {
        if k > 0 {
            push_ascii(&mut text, '\n');
        }
        push_str(&mut text, lines[k].as_str());
        assert(ls.subrange(0, k + 1).drop_last() =~= ls.subrange(0, k as int));
        assert(ls[k as int] == encode_utf8(lines@[k as int]@));
        k = k + 1;
        assert(encode_utf8(text@) =~= join(ls.subrange(0, k as int), NL()));
    }
    assert(ls.subrange(0, ls.len() as int) =~= ls);
    text
}

/// Align every table in a document.
///
/// This is the pass that makes the formatter's own output readable: comrak
/// renders `| a | b |` with whatever spacing the cells happen to need, and
/// this puts the columns back under one another.
pub fn align(input: &str, settings: &Settings) -> (text: String)
    ensures
        encode_utf8(text@) == align_spec(input.spec_bytes(), nodes_of(input@, settings@)),
{
    let nodes = read_nodes(input, settings);
    align_nodes(input, &nodes)
}

/// Align every table in a document whose nodes, as comrak parsed it, are
/// `nodes`.
pub fn align_nodes(input: &str, nodes: &Vec<MdNode>) -> (text: String)
    ensures
        encode_utf8(text@) == align_spec(input.spec_bytes(), nodes@.map_values(|n: MdNode| n@)),
{
    let lines = buffer_lines(input);
    let ghost ls = lines_view(lines@);
    let tables = group_tables(nodes);
    let ghost ts = tables@.map_values(|t: TableNode| t@);
    let mut out: Vec<String> = Vec::new();
    let mut k: usize = 0;
    while k < lines.len()
        invariant
            ls == lines_view(lines@),
            k <= lines@.len(),
            strings_view(out@) == ls.subrange(0, k as int),
        decreases lines@.len() - k,
    {
        let ghost before = strings_view(out@);
        assert(ls[k as int] == lines@[k as int].spec_bytes());
        out.push(owned(lines[k]));
        k = k + 1;
        assert(strings_view(out@) =~= before.push(ls[k - 1]));
        assert(strings_view(out@) =~= ls.subrange(0, k as int));
    }
    assert(ls.subrange(0, ls.len() as int) =~= ls);
    let mut i: usize = 0;
    assert(ts.subrange(0, 0) =~= Seq::<TableNodeView>::empty());
    while i < tables.len()
        invariant
            ls == lines_view(lines@),
            ts == tables@.map_values(|t: TableNode| t@),
            i <= tables@.len(),
            strings_view(out@) == apply_tables(ls, ts.subrange(0, i as int)),
            out@.len() == ls.len(),
        decreases tables@.len() - i,
    {
        assert(tables@[i as int]@ == ts[i as int]);
        assert(ts.subrange(0, i + 1).drop_last() =~= ts.subrange(0, i as int));
        match read(&tables[i], &lines) {
            None => {},
            Some(t) => {
                let rep = render_table(&t, &lines);
                assert(strings_view(rep@).len() == rep@.len());
                let ghost before = strings_view(out@);
                let mut j: usize = 0;
                while j < rep.len()
                    invariant
                        1 <= t.first <= t.last <= lines@.len(),
                        rep@.len() == t.last - t.first + 1,
                        out@.len() == ls.len(),
                        ls.len() == lines@.len(),
                        j <= rep@.len(),
                        strings_view(out@) == splice(before, t.first - 1, strings_view(rep@).subrange(0, j as int)),
                    decreases rep@.len() - j,
                {
                    let ghost prev = strings_view(out@);
                    out[t.first - 1 + j] = rep[j].clone();
                    assert(strings_view(out@) =~= prev.update(t.first - 1 + j, strings_view(rep@)[j as int]));
                    j = j + 1;
                    assert(strings_view(out@) =~= splice(before, t.first - 1, strings_view(rep@).subrange(0, j as int)));
                }
                assert(strings_view(rep@).subrange(0, rep@.len() as int) =~= strings_view(rep@));
            },
        }
        i = i + 1;
    }
    assert(ts.subrange(0, ts.len() as int) =~= ts);
    let mut text = join_lines(&out);
    let b = input.as_bytes();
    if b.len() > 0 && b[b.len() - 1] == 0x0a {
        push_ascii(&mut text, '\n');
    }
    text
}


/// The result of formatting the table under the cursor.
pub struct TableEdit {
    /// 1-based, inclusive range of buffer lines to replace.
    pub first: usize,
    pub last: usize,
    /// Replacement text for `first..=last`, in order.
    pub lines: Vec<String>,
    /// Where the cursor should end up. The row never moves: table formatting
    /// never inserts or removes rows.
    pub cursor_row: usize,
    /// 0-based byte column.
    pub cursor_col: usize,
}

pub struct TableEditView {
    pub first: usize,
    pub last: usize,
    pub lines: Seq<Seq<u8>>,
    pub cursor_row: usize,
    pub cursor_col: usize,
}

impl View for TableEdit {
    type V = TableEditView;

    open spec fn view(&self) -> TableEditView {
        TableEditView {
            first: self.first,
            last: self.last,
            lines: strings_view(self.lines@),
            cursor_row: self.cursor_row,
            cursor_col: self.cursor_col,
        }
    }
}

/// The first table among `tables`, from the `i`-th on, that can be
/// rewritten and holds line `row`.
pub open spec fn table_at(tables: Seq<TableNodeView>, lines: Seq<Seq<u8>>, row: usize, i: int) -> Option<
    TableView,
>
    decreases tables.len() - i,
{
    if i < 0 || i >= tables.len() {
        None
    } else {
        match read_spec(tables[i], lines) {
            Some(t) => if t.first <= row <= t.last {
                Some(t)
            } else {
                table_at(tables, lines, row, i + 1)
            },
            None => table_at(tables, lines, row, i + 1),
        }
    }
}

/// The edit that aligns the table under the cursor at `(row, col)` of the
/// document `b`, whose nodes comrak found to be `nodes`: `None` when `row`
/// is not a line of the buffer or no table that can be rewritten holds it;
/// otherwise the table's line range, its rewritten lines, the cursor's row
/// unchanged, and its column where `cursor_spec` puts it, or, on the
/// delimiter line, where it was, but no further than the end of the line.
pub open spec fn edit_spec(b: Seq<u8>, nodes: Seq<MdNodeView>, row: usize, col: usize) -> Option<
    TableEditView,
> {
    let lines = buffer_lines_spec(b);
    if row == 0 || row > lines.len() {
        None
    } else {
        match table_at(group(nodes), lines, row, 0) {
            None => None,
            Some(t) => {
                let rep = table_lines(t, lines);
                let cc = match cursor_spec(t, row, col) {
                    Some(c) => c,
                    None => min(col as int, rep[row - t.first].len() as int) as usize,
                };
                Some(TableEditView { first: t.first, last: t.last, lines: rep, cursor_row: row, cursor_col: cc })
            },
        }
    }
}

/// The first table among `tables` that can be rewritten and holds line
/// `row`.
fn find_table<'a>(tables: &Vec<TableNode>, lines: &Vec<&'a str>, row: usize) -> (r: Option<Table<'a>>)
    ensures
        match r {
            None => table_at(tables@.map_values(|t: TableNode| t@), lines_view(lines@), row, 0) is None,
            Some(t) => table_at(tables@.map_values(|t: TableNode| t@), lines_view(lines@), row, 0)
                == Some(t@) && 1 <= t.first <= t.last <= lines@.len() && t.first <= row <= t.last,
        },
{
    let ghost ls = lines_view(lines@);
    let ghost ts = tables@.map_values(|t: TableNode| t@);
    let mut i: usize = 0;
    while i < tables.len()
        invariant
            ls == lines_view(lines@),
            ts == tables@.map_values(|t: TableNode| t@),
            i <= tables@.len(),
            table_at(ts, ls, row, 0) == table_at(ts, ls, row, i as int),
        decreases tables@.len() - i,
    {
        assert(tables@[i as int]@ == ts[i as int]);
        match read(&tables[i], lines) {
            Some(t) => {
                if t.first <= row && row <= t.last {
                    return Some(t);
                }
            },
            None => {},
        }
        i = i + 1;
    }
    None
}

/// Align the table under `(row, col)`, if there is one, leaving the rest of
/// the document alone.
///
/// `input` is the whole buffer, lines joined by `\n` with a trailing one.
/// `row` is 1-based and `col` a 0-based byte offset, matching
/// `nvim_win_get_cursor`.
pub fn format(input: &str, settings: &Settings, row: usize, col: usize) -> (r: Option<TableEdit>)
    ensures
        match r {
            None => edit_spec(input.spec_bytes(), nodes_of(input@, settings@), row, col) is None,
            Some(e) => edit_spec(input.spec_bytes(), nodes_of(input@, settings@), row, col) == Some(e@),
        },
{
    let lines = buffer_lines(input);
    if row == 0 || row > lines.len() {
        return None;
    }
    let nodes = read_nodes(input, settings);
    format_nodes(input, &nodes, row, col)
}

/// Align the table under `(row, col)` of a document whose nodes, as comrak
/// parsed it, are `nodes`.
pub fn format_nodes(input: &str, nodes: &Vec<MdNode>, row: usize, col: usize) -> (r: Option<TableEdit>)
    ensures
        match r {
            None => edit_spec(input.spec_bytes(), nodes@.map_values(|n: MdNode| n@), row, col) is None,
            Some(e) => edit_spec(input.spec_bytes(), nodes@.map_values(|n: MdNode| n@), row, col) == Some(e@),
        },
{
    let lines = buffer_lines(input);
    let ghost ls = lines_view(lines@);
    if row == 0 || row > lines.len() {
        return None;
    }
    let tables = group_tables(nodes);
    let ghost ts = tables@.map_values(|t: TableNode| t@);
    let found = find_table(&tables, &lines, row);
    let t = match found {
        None => {
            return None;
        },
        Some(t) => t,
    };
    let replacement = render_table(&t, &lines);
    let ghost rep = table_lines(t@, ls);
    assert(replacement@.len() == strings_view(replacement@).len());
    assert(rep.len() == t.last - t.first + 1);
    let cursor_col = match cursor(&t, row, col) {
        Some(c) => c,
        None => {
            let k = row - t.first;
            assert(strings_view(replacement@)[k as int] == encode_utf8(replacement@[k as int]@));
            let len = replacement[k].as_str().as_bytes().len();
            if col <= len {
                col
            } else {
                len
            }
        },
    };
    let edit = TableEdit { first: t.first, last: t.last, lines: replacement, cursor_row: row, cursor_col };
    assert(edit@.lines == rep);
    Some(edit)
}

/// Whether some table among `tables` that can be rewritten holds the
/// 1-based line `n`.
pub open spec fn in_some_table(tables: Seq<TableNodeView>, lines: Seq<Seq<u8>>, n: int) -> bool {
    exists|i: int|
        0 <= i < tables.len() && match #[trigger] read_spec(tables[i], lines) {
            Some(t) => t.first <= n <= t.last,
            None => false,
        }
}

proof fn lemma_read_range(tn: TableNodeView, lines: Seq<Seq<u8>>)
    ensures
        match read_spec(tn, lines) {
            Some(t) => 1 <= t.first <= t.last <= lines.len() && table_lines(t, lines).len() == t.last - t.first + 1,
            None => true,
        },
{
}

proof fn lemma_apply_tables(lines: Seq<Seq<u8>>, tables: Seq<TableNodeView>)
    ensures
        apply_tables(lines, tables).len() == lines.len(),
        forall|k: int|
            0 <= k < lines.len() && !in_some_table(tables, lines, k + 1) ==> #[trigger] apply_tables(lines, tables)[k]
                == lines[k],
    decreases tables.len(),
{
    if tables.len() > 0 {
        let init = tables.drop_last();
        lemma_apply_tables(lines, init);
        lemma_read_range(tables.last(), lines);
        assert forall|k: int|
            0 <= k < lines.len() && !in_some_table(tables, lines, k + 1) implies #[trigger] apply_tables(lines, tables)[k]
                == lines[k] by {
            if in_some_table(init, lines, k + 1) {
                let i = choose|i: int|
                    0 <= i < init.len() && match #[trigger] read_spec(init[i], lines) {
                        Some(t) => t.first <= k + 1 <= t.last,
                        None => false,
                    };
                assert(init[i] == tables[i]);
            }
            match read_spec(tables.last(), lines) {
                Some(t) => {
                    assert(!(t.first <= k + 1 <= t.last)) by {
                        if t.first <= k + 1 <= t.last {
                            assert(read_spec(tables[tables.len() - 1], lines) == Some(t));
                        }
                    }
                },
                None => {},
            }
        }
    }
}

/// Aligning the tables of a document keeps every line where it is: as many
/// lines come out as went in, a line that lies in no table comrak found is
/// left exactly as it was, and a trailing newline is kept.
pub proof fn lemma_align_keeps_lines(b: Seq<u8>, nodes: Seq<MdNodeView>)
    ensures
        ({
            let lines = buffer_lines_spec(b);
            let out = apply_tables(lines, group(nodes));
            &&& out.len() == lines.len()
            &&& forall|k: int|
                0 <= k < lines.len() && !in_some_table(group(nodes), lines, k + 1) ==> #[trigger] out[k] == lines[k]
            &&& align_spec(b, nodes) == join(out, NL()) || align_spec(b, nodes) == join(out, NL()).push(NL())
            &&& (b.len() > 0 && b.last() == NL()) ==> align_spec(b, nodes).last() == NL()
        }),
{
    lemma_apply_tables(buffer_lines_spec(b), group(nodes));
}

proof fn lemma_table_at(tables: Seq<TableNodeView>, lines: Seq<Seq<u8>>, row: usize, i: int)
    ensures
        match table_at(tables, lines, row, i) {
            Some(t) => 1 <= t.first <= row <= t.last <= lines.len() && table_lines(t, lines).len() == t.last
                - t.first + 1,
            None => true,
        },
    decreases tables.len() - i,
{
    if 0 <= i < tables.len() {
        lemma_read_range(tables[i], lines);
        lemma_table_at(tables, lines, row, i + 1);
    }
}

/// Realigning the table under the cursor never inserts or removes rows and
/// never moves the cursor to another one: the edit replaces the buffer lines
/// `first..=last`, a range that holds the cursor's row, with exactly as many
/// lines. A cursor outside the buffer is never in a table.
pub proof fn lemma_edit_keeps_rows(b: Seq<u8>, nodes: Seq<MdNodeView>, row: usize, col: usize)
    ensures
        match edit_spec(b, nodes, row, col) {
            Some(e) => {
                &&& 1 <= e.first <= row <= e.last <= buffer_lines_spec(b).len()
                &&& e.cursor_row == row
                &&& e.lines.len() == e.last - e.first + 1
            },
            None => true,
        },
        (row == 0 || row > buffer_lines_spec(b).len()) ==> edit_spec(b, nodes, row, col) is None,
{
    lemma_table_at(group(nodes), buffer_lines_spec(b), row, 0);
}

/// The replacement lines, each followed by a line feed.
pub open spec fn lines_text(lines: Seq<Seq<u8>>) -> Seq<u8>
    decreases lines.len(),
{
    if lines.len() == 0 {
        Seq::<u8>::empty()
    } else {
        lines_text(lines.drop_last()) + lines.last().push(NL())
    }
}

/// What the command line prints for an edit: the line range, then where
/// the cursor goes, as `FIRST LAST CURSOR_ROW CURSOR_COL`, then one line per
/// line of the range.
pub open spec fn edit_text(e: TableEditView) -> Seq<u8> {
    decimal(e.first as nat) + seq![SPACE()] + decimal(e.last as nat) + seq![SPACE()] + decimal(
        e.cursor_row as nat,
    ) + seq![SPACE()] + decimal(e.cursor_col as nat) + seq![NL()] + lines_text(e.lines)
}

impl TableEdit {
    /// The edit as the command line prints it.
    pub fn output(&self) -> (s: String)
        ensures
            encode_utf8(s@) == edit_text(self@),
    {
        let mut s = String::new();
        assert(encode_utf8(s@) =~= Seq::<u8>::empty());
        push_decimal(&mut s, self.first);
        push_ascii(&mut s, ' ');
        push_decimal(&mut s, self.last);
        push_ascii(&mut s, ' ');
        push_decimal(&mut s, self.cursor_row);
        push_ascii(&mut s, ' ');
        push_decimal(&mut s, self.cursor_col);
        push_ascii(&mut s, '\n');
        let ghost head = encode_utf8(s@);
        let ghost ls = strings_view(self.lines@);
        assert(head =~= edit_text(self@).subrange(0, head.len() as int));
        assert(head + lines_text(ls.subrange(0, 0)) =~= head);
        let mut k: usize = 0;
        while k < self.lines.len()
            invariant
                ls == strings_view(self.lines@),
                k <= self.lines@.len(),
                encode_utf8(s@) == head + lines_text(ls.subrange(0, k as int)),
            decreases self.lines@.len() - k,
        {
            push_str(&mut s, self.lines[k].as_str());
            push_ascii(&mut s, '\n');
            assert(ls[k as int] == encode_utf8(self.lines@[k as int]@));
            assert(ls.subrange(0, k + 1).drop_last() =~= ls.subrange(0, k as int));
            k = k + 1;
            assert(encode_utf8(s@) =~= head + lines_text(ls.subrange(0, k as int)));
        }
        assert(ls.subrange(0, ls.len() as int) =~= ls);
        assert(head + lines_text(ls) =~= edit_text(self@));
        s
    }
}

/// Where the `k`-th of `pieces` starts once they are joined with separators
/// `sep` bytes long.
pub open spec fn piece_offset(pieces: Seq<Seq<u8>>, sep: int, k: int) -> int
    decreases k,
{
    if k <= 0 {
        0
    } else {
        piece_offset(pieces, sep, k - 1) + pieces[k - 1].len() + sep
    }
}

/// Joined pieces hold each piece at its offset.
proof fn lemma_join_with_at(pieces: Seq<Seq<u8>>, sep: Seq<u8>, k: int)
    requires
        0 <= k < pieces.len(),
    ensures
        join_with(pieces, sep).len() == piece_offset(pieces, sep.len() as int, pieces.len() as int) - sep.len(),
        piece_offset(pieces, sep.len() as int, k) + pieces[k].len() <= join_with(pieces, sep).len(),
        join_with(pieces, sep).subrange(
            piece_offset(pieces, sep.len() as int, k),
            piece_offset(pieces, sep.len() as int, k) + pieces[k].len(),
        ) == pieces[k],
    decreases pieces.len(),
{
    let n = pieces.len() as int;
    let q = pieces.drop_last();
    let sl = sep.len() as int;
    assert forall|j: int| 0 <= j <= q.len() implies #[trigger] piece_offset(q, sl, j) == piece_offset(pieces, sl, j) by {
        lemma_piece_offset_prefix(pieces, q, sl, j);
    }
    if n == 1 {
        assert(join_with(pieces, sep) == pieces[0]);
        assert(pieces[0].subrange(0, pieces[0].len() as int) =~= pieces[0]);
    } else {
        let kk = if k < n - 1 { k } else { 0 };
        lemma_join_with_at(q, sep, kk);
        let jq = join_with(q, sep);
        assert(join_with(pieces, sep) == jq + sep + pieces.last());
        if k < n - 1 {
            assert(q[k] == pieces[k]);
            let o = piece_offset(pieces, sl, k);
            lemma_piece_offset_nonneg(pieces, sl, k);
            assert(o == piece_offset(q, sl, k));
            assert(o + q[k].len() <= jq.len());
            assert forall|e: int| 0 <= e < pieces[k].len() implies join_with(pieces, sep).subrange(o, o + pieces[k].len())[e]
                == pieces[k][e] by {
                assert(join_with(pieces, sep)[o + e] == jq[o + e]);
                assert(jq.subrange(o, o + q[k].len())[e] == jq[o + e]);
            }
            assert(join_with(pieces, sep).subrange(o, o + pieces[k].len()) =~= pieces[k]);
        } else {
            assert(piece_offset(pieces, sl, k) == piece_offset(q, sl, n - 1));
            assert(join_with(pieces, sep).subrange(piece_offset(pieces, sl, k), piece_offset(pieces, sl, k) + pieces[k].len())
                =~= pieces.last());
        }
    }
}

proof fn lemma_piece_offset_nonneg(pieces: Seq<Seq<u8>>, sep: int, k: int)
    requires
        0 <= sep,
    ensures
        0 <= piece_offset(pieces, sep, k),
    decreases k,
{
    if k > 0 {
        lemma_piece_offset_nonneg(pieces, sep, k - 1);
    }
}

proof fn lemma_piece_offset_prefix(pieces: Seq<Seq<u8>>, q: Seq<Seq<u8>>, sep: int, j: int)
    requires
        0 <= j <= q.len() <= pieces.len(),
        forall|i: int| 0 <= i < q.len() ==> q[i] == pieces[i],
    ensures
        piece_offset(q, sep, j) == piece_offset(pieces, sep, j),
    decreases j,
{
    if j > 0 {
        lemma_piece_offset_prefix(pieces, q, sep, j - 1);
    }
}

/// A column is at least as wide as each of its cells.
proof fn lemma_column_width(rows: Seq<RowView>, c: int, k: int, i: int)
    requires
        0 <= i < k <= rows.len(),
        0 <= c < rows[i].cells.len(),
    ensures
        text_width(rows[i].cells[c].text) <= column_width(rows, c, k),
    decreases k,
{
    if i < k - 1 {
        lemma_column_width(rows, c, k - 1, i);
    }
}

/// Padded cells whose text is as wide as it is long take up their column's
/// width in bytes.
proof fn lemma_padded_offsets(t: TableView, i: int, column: int)
    requires
        0 <= i < t.rows.len(),
        0 <= column <= t.widths.len(),
        t.widths == widths_spec(t.rows, t.widths.len() as int),
        forall|j: int|
            0 <= j < column && j < t.rows[i].cells.len() ==> text_width(#[trigger] t.rows[i].cells[j].text)
                == t.rows[i].cells[j].text.len(),
    ensures
        piece_offset(padded_spec(t.rows[i], t.widths), 3, column) == widths_before(t.widths, column),
    decreases column,
{
    if column > 0 {
        lemma_padded_offsets(t, i, column - 1);
        let j = column - 1;
        let cells = t.rows[i].cells;
        let p = padded_spec(t.rows[i], t.widths);
        if j < cells.len() {
            lemma_column_width(t.rows, j, t.rows.len() as int, i);
        }
        assert(p[j].len() == t.widths[j]);
    }
}

/// The cursor follows its cell: on a row of the table, realigning puts the
/// cursor as far into the same cell as it was, and the cell's text sits
/// around it as it did. The padding is counted in display columns and the
/// cursor in bytes, so this holds while the cells to the left of the cursor
/// take up as many columns on screen as they have bytes, as ASCII text does.
pub proof fn lemma_cursor_follows_cell(b: Seq<u8>, nodes: Seq<MdNodeView>, row: usize, col: usize)
    requires
        ({
            let lines = buffer_lines_spec(b);
            match table_at(group(nodes), lines, row, 0) {
                Some(t) => match first_row(t.rows, row, 0) {
                    Some(i) => {
                        let cells = t.rows[i].cells;
                        let column = cursor_cell(cells, col).0;
                        &&& row != t.separator
                        &&& column < t.widths.len()
                        &&& cursor_spec(t, row, col) is Some
                        &&& forall|j: int|
                            0 <= j < column && j < cells.len() ==> text_width(#[trigger] cells[j].text)
                                == cells[j].text.len()
                    },
                    None => false,
                },
                None => false,
            }
        }),
    ensures
        ({
            let lines = buffer_lines_spec(b);
            let t = table_at(group(nodes), lines, row, 0)->Some_0;
            let i = first_row(t.rows, row, 0)->Some_0;
            let cells = t.rows[i].cells;
            let (column, offset) = cursor_cell(cells, col);
            let text = if column < cells.len() {
                cells[column].text
            } else {
                Seq::<u8>::empty()
            };
            match edit_spec(b, nodes, row, col) {
                Some(e) => {
                    &&& 0 <= offset <= text.len()
                    &&& e.cursor_col >= offset
                    &&& e.cursor_col - offset + text.len() <= e.lines[row - e.first].len()
                    &&& e.lines[row - e.first].subrange(e.cursor_col - offset, e.cursor_col - offset + text.len())
                        == text
                },
                None => false,
            }
        }),
{
    let lines = buffer_lines_spec(b);
    let tables = group(nodes);
    lemma_table_at(tables, lines, row, 0);
    let t = table_at(tables, lines, row, 0)->Some_0;
    lemma_table_at_read(tables, lines, row, 0);
    let i = first_row(t.rows, row, 0)->Some_0;
    lemma_first_row(t.rows, row, 0);
    let cells = t.rows[i].cells;
    let (column, offset) = cursor_cell(cells, col);
    lemma_cursor_cell(cells, col);
    let text = if column < cells.len() {
        cells[column].text
    } else {
        Seq::<u8>::empty()
    };
    let p = padded_spec(t.rows[i], t.widths);
    assert(p[column] == text + spaces(sat_sub(t.widths[column] as int, text_width(text) as int)));
    lemma_padded_offsets(t, i, column);
    lemma_join_with_at(p, seq![SPACE(), PIPE(), SPACE()], column);
    let line = render_spec(t.prefix, p);
    let off = piece_offset(p, 3, column);
    lemma_piece_offset_nonneg(p, 3, column);
    let start = t.prefix.len() + 2 + off;
    let jw = join_with(p, seq![SPACE(), PIPE(), SPACE()]);
    let head = t.prefix + seq![PIPE(), SPACE()];
    assert(line =~= head + jw + seq![SPACE(), PIPE()]);
    assert(off + p[column].len() <= jw.len());
    assert forall|e: int| 0 <= e < text.len() implies line.subrange(start, start + text.len())[e] == text[e] by {
        assert(line[start + e] == jw[off + e]);
        assert(jw.subrange(off, off + p[column].len())[e] == jw[off + e]);
        assert(p[column][e] == text[e]);
    }
    assert(line.subrange(start, start + text.len()) =~= text);
    assert(table_lines(t, lines)[row - t.first] == line_at(t, lines, row));
    assert(line_at(t, lines, row) == line);
}

proof fn lemma_first_row(rows: Seq<RowView>, n: usize, i: int)
    requires
        0 <= i,
    ensures
        match first_row(rows, n, i) {
            Some(k) => i <= k < rows.len() && rows[k].line == n,
            None => true,
        },
    decreases rows.len() - i,
{
    if i < rows.len() && rows[i].line != n {
        lemma_first_row(rows, n, i + 1);
    }
}

proof fn lemma_cursor_cell(cells: Seq<CellView>, col: usize)
    ensures
        ({
            let (column, offset) = cursor_cell(cells, col);
            &&& 0 <= column
            &&& (column < cells.len() ==> 0 <= offset <= cells[column].text.len())
            &&& (column >= cells.len() ==> offset == 0)
        }),
    decreases cells.len(),
{
    if cells.len() > 0 && col < cells.last().start {
        lemma_cursor_cell(cells.drop_last(), col);
        let (column, offset) = cursor_cell(cells.drop_last(), col);
        if column < cells.drop_last().len() {
            assert(cells.drop_last()[column] == cells[column]);
        }
    }
}

proof fn lemma_table_at_read(tables: Seq<TableNodeView>, lines: Seq<Seq<u8>>, row: usize, i: int)
    ensures
        match table_at(tables, lines, row, i) {
            Some(t) => exists|j: int| 0 <= j < tables.len() && read_spec(tables[j], lines) == Some(t),
            None => true,
        },
    decreases tables.len() - i,
{
    if 0 <= i < tables.len() {
        lemma_table_at_read(tables, lines, row, i + 1);
    }
}

/// Whether `x` holds no line feed.
pub open spec fn nl_free(x: Seq<u8>) -> bool {
    forall|i: int| 0 <= i < x.len() ==> x[i] != NL()
}

proof fn lemma_cell_nl_free(line: Seq<u8>, sc: usize, ec: usize)
    requires
        nl_free(line),
    ensures
        nl_free(cell_spec(line, sc, ec).text),
{
    let start = min(sat_sub(sc as int, 1), line.len() as int);
    let end = min(ec as int, line.len() as int);
    if !(start > end || !is_char_boundary(line, start) || !is_char_boundary(line, end)) {
        let raw = line.subrange(start, end);
        lemma_ws_run_bounds(raw, 0);
        let ts = trim_start(raw);
        lemma_ws_back_bounds(ts, 0, ts.len() as int);
        assert(forall|i: int| 0 <= i < ts.len() ==> ts[i] == raw[i + ws_run(raw, 0)]);
    }
}

/// What a row read out of the buffer holds: no line feed anywhere.
pub open spec fn row_nl_free(r: RowView) -> bool {
    &&& nl_free(r.prefix)
    &&& forall|c: int| 0 <= c < r.cells.len() ==> nl_free(#[trigger] r.cells[c].text)
}

proof fn lemma_each_row_nl_free(rns: Seq<RowNodeView>, lines: Seq<Seq<u8>>)
    requires
        forall|k: int| 0 <= k < lines.len() ==> nl_free(#[trigger] lines[k]),
    ensures
        match each_row_spec(rns, lines) {
            Some(rs) => forall|i: int| 0 <= i < rs.len() ==> row_nl_free(#[trigger] rs[i]),
            None => true,
        },
    decreases rns.len(),
{
    if rns.len() > 0 {
        lemma_each_row_nl_free(rns.drop_last(), lines);
        let rn = rns.last();
        if let Some(r) = row_spec(rn, lines) {
            let line = lines[rn.start_line - 1];
            assert(nl_free(line));
            assert forall|c: int| 0 <= c < r.cells.len() implies nl_free(#[trigger] r.cells[c].text) by {
                lemma_cell_nl_free(line, rn.cells[c].0, rn.cells[c].1);
            }
            assert(row_nl_free(r));
        }
    }
}

proof fn lemma_join_with_nl_free(pieces: Seq<Seq<u8>>, sep: Seq<u8>)
    requires
        nl_free(sep),
        forall|k: int| 0 <= k < pieces.len() ==> nl_free(#[trigger] pieces[k]),
    ensures
        nl_free(join_with(pieces, sep)),
    decreases pieces.len(),
{
    if pieces.len() > 1 {
        lemma_join_with_nl_free(pieces.drop_last(), sep);
        assert(nl_free(pieces[pieces.len() - 1]));
        let x = join_with(pieces.drop_last(), sep);
        assert forall|i: int| 0 <= i < join_with(pieces, sep).len() implies join_with(pieces, sep)[i] != NL() by {
            if i < x.len() {
            } else if i < x.len() + sep.len() {
                assert(join_with(pieces, sep)[i] == sep[i - x.len()]);
            } else {
                assert(join_with(pieces, sep)[i] == pieces.last()[i - x.len() - sep.len()]);
            }
        }
    } else if pieces.len() == 1 {
        assert(nl_free(pieces[0]));
    }
}

proof fn lemma_render_nl_free(prefix: Seq<u8>, cells: Seq<Seq<u8>>)
    requires
        nl_free(prefix),
        forall|k: int| 0 <= k < cells.len() ==> nl_free(#[trigger] cells[k]),
    ensures
        nl_free(render_spec(prefix, cells)),
        render_spec(prefix, cells).len() > 0,
{
    let sep = seq![SPACE(), PIPE(), SPACE()];
    lemma_join_with_nl_free(cells, sep);
    let j = join_with(cells, sep);
    let r = render_spec(prefix, cells);
    assert(r =~= prefix + seq![PIPE(), SPACE()] + j + seq![SPACE(), PIPE()]);
    assert forall|i: int| 0 <= i < r.len() implies r[i] != NL() by {
        if i < prefix.len() {
            assert(r[i] == prefix[i]);
        } else if i < prefix.len() + 2 {
        } else if i < prefix.len() + 2 + j.len() {
            assert(r[i] == j[i - prefix.len() - 2]);
        }
    }
}

/// A line of a rewritten table holds no line feed, and is empty only where
/// the line it replaces was.
proof fn lemma_line_at_nl_free(tn: TableNodeView, t: TableView, lines: Seq<Seq<u8>>, n: usize)
    requires
        forall|k: int| 0 <= k < lines.len() ==> nl_free(#[trigger] lines[k]),
        read_spec(tn, lines) == Some(t),
        t.first <= n <= t.last,
    ensures
        nl_free(line_at(t, lines, n)),
        line_at(t, lines, n).len() == 0 ==> lines[n - 1].len() == 0,
{
    lemma_read_range(tn, lines);
    lemma_each_row_nl_free(tn.rows, lines);
    assert forall|i: int| 0 <= i < t.rows.len() implies row_nl_free(#[trigger] t.rows[i]) by {}
    if n == t.separator {
        let ds = delimiters_spec(t.aligns, t.widths);
        assert forall|k: int| 0 <= k < ds.len() implies nl_free(#[trigger] ds[k]) by {
            let d = ds[k];
            assert(d == delimiter_spec(t.aligns[k], t.widths[k]));
        }
        lemma_render_nl_free(t.prefix, ds);
    } else {
        lemma_first_row(t.rows, n, 0);
        match first_row(t.rows, n, 0) {
            Some(i) => {
                let row = t.rows[i];
                assert(row_nl_free(row));
                let ps = padded_spec(row, t.widths);
                assert forall|k: int| 0 <= k < ps.len() implies nl_free(#[trigger] ps[k]) by {
                    let text = if k < row.cells.len() {
                        row.cells[k].text
                    } else {
                        Seq::<u8>::empty()
                    };
                    let sp = spaces(sat_sub(t.widths[k] as int, text_width(text) as int));
                    assert(ps[k] == text + sp);
                    assert forall|e: int| 0 <= e < ps[k].len() implies ps[k][e] != NL() by {
                        if e < text.len() {
                            assert(ps[k][e] == text[e]);
                        } else {
                            assert(ps[k][e] == sp[e - text.len()]);
                        }
                    }
                }
                lemma_render_nl_free(t.prefix, ps);
            },
            None => {
                assert(nl_free(lines[n - 1]));
            },
        }
    }
}

proof fn lemma_apply_nl_free(lines: Seq<Seq<u8>>, tables: Seq<TableNodeView>)
    requires
        forall|k: int| 0 <= k < lines.len() ==> nl_free(#[trigger] lines[k]),
    ensures
        apply_tables(lines, tables).len() == lines.len(),
        forall|k: int|
            0 <= k < lines.len() ==> nl_free(#[trigger] apply_tables(lines, tables)[k]) && (apply_tables(
                lines,
                tables,
            )[k].len() == 0 ==> lines[k].len() == 0),
    decreases tables.len(),
{
    lemma_apply_tables(lines, tables);
    if tables.len() > 0 {
        let init = tables.drop_last();
        lemma_apply_nl_free(lines, init);
        lemma_read_range(tables.last(), lines);
        let o = apply_tables(lines, init);
        if let Some(t) = read_spec(tables.last(), lines) {
            let rep = table_lines(t, lines);
            assert forall|k: int| 0 <= k < lines.len() implies nl_free(#[trigger] apply_tables(lines, tables)[k]) && (
            apply_tables(lines, tables)[k].len() == 0 ==> lines[k].len() == 0) by {
                if t.first - 1 <= k < t.first - 1 + rep.len() {
                    let n = (k + 1) as usize;
                    assert(rep[k - (t.first - 1)] == line_at(t, lines, n));
                    lemma_line_at_nl_free(tables.last(), t, lines, n);
                } else {
                    assert(apply_tables(lines, tables)[k] == o[k]);
                }
            }
        }
    }
}

/// Whether `b` ends with a line feed.
pub open spec fn ends_in_newline(b: Seq<u8>) -> bool {
    b.len() > 0 && b.last() == NL()
}

/// Aligning the tables of a document keeps its line count and its final
/// newline: the output has as many lines as the input, and ends with a
/// newline exactly when the input does.
pub proof fn lemma_align_keeps_line_count(b: Seq<u8>, nodes: Seq<MdNodeView>)
    ensures
        split(align_spec(b, nodes), NL()).len() == split(b, NL()).len(),
        ends_in_newline(align_spec(b, nodes)) == ends_in_newline(b),
{
    let ls = split(b, NL());
    let lines = buffer_lines_spec(b);
    lemma_split_len(b, NL());
    lemma_split_pieces(b, NL());
    assert forall|k: int| 0 <= k < lines.len() implies nl_free(#[trigger] lines[k]) by {
        assert(lines[k] == ls[k]);
        assert forall|i: int| 0 <= i < lines[k].len() implies lines[k][i] != NL() by {
            assert(ls[k][i] != NL());
        }
    }
    let out = apply_tables(lines, group(nodes));
    lemma_apply_nl_free(lines, group(nodes));
    let text = join(out, NL());
    if out.len() >= 1 {
        assert forall|k: int, j: int| 0 <= k < out.len() && 0 <= j < out[k].len() implies out[k][j] != NL() by {
            assert(nl_free(out[k]));
        }
        lemma_split_join(out, NL());
    } else {
        assert(text =~= Seq::<u8>::empty());
        assert(split(text, NL()) =~= seq![Seq::<u8>::empty()]);
    }
    if b.len() > 0 && b.last() == NL() {
        assert(ls == split(b.drop_last(), NL()).push(Seq::<u8>::empty()));
        lemma_split_len(b.drop_last(), NL());
        assert(lines =~= split(b.drop_last(), NL()));
        let r = text.push(NL());
        assert(r.drop_last() =~= text);
        assert(split(r, NL()) == split(text, NL()).push(Seq::<u8>::empty()));
    } else if b.len() > 0 {
        assert(ls.last().len() > 0) by {
            lemma_split_len(b.drop_last(), NL());
        }
        assert(lines == ls);
        let last = out.last();
        assert(nl_free(out[out.len() - 1]));
        assert(lines[lines.len() - 1].len() > 0);
        assert(last.len() > 0);
        if out.len() == 1 {
            assert(text == out[0]);
        } else {
            assert(text == join(out.drop_last(), NL()).push(NL()) + last);
        }
        assert(text.last() == last[last.len() - 1]);
    } else {
        assert(ls =~= seq![Seq::<u8>::empty()]);
        assert(lines.len() == 0);
    }
}

proof fn lemma_column_width_min(rows: Seq<RowView>, c: int, k: int)
    ensures
        column_width(rows, c, k) >= MIN_WIDTH,
    decreases k,
{
    if k > 0 {
        lemma_column_width_min(rows, c, k - 1);
    }
}

/// A table read out of the buffer spans the lines comrak gave it, has at
/// least one row, its delimiter row on the line after the first row and
/// within the table, the first row's prefix, and a width of at least
/// `MIN_WIDTH` for each of its columns; a table whose rows cannot all be
/// read is not read.
pub proof fn lemma_read_table(tn: TableNodeView, lines: Seq<Seq<u8>>)
    ensures
        rows_spec(tn.rows, lines) is None ==> read_spec(tn, lines) is None,
        match read_spec(tn, lines) {
            Some(t) => {
                &&& t.first == tn.start_line
                &&& t.last == tn.end_line
                &&& t.rows.len() > 0
                &&& rows_spec(tn.rows, lines) == Some(t.rows)
                &&& t.separator == t.rows[0].line + 1
                &&& t.separator <= t.last
                &&& t.prefix == t.rows[0].prefix
                &&& t.widths.len() == t.aligns.len()
                &&& t.aligns.len() == tn.aligns.len()
                &&& forall|c: int| 0 <= c < t.widths.len() ==> #[trigger] t.widths[c] >= MIN_WIDTH
            },
            None => true,
        },
{
    if let Some(t) = read_spec(tn, lines) {
        assert forall|c: int| 0 <= c < t.widths.len() implies #[trigger] t.widths[c] >= MIN_WIDTH by {
            lemma_column_width_min(t.rows, c, t.rows.len() as int);
        }
    }
}

/// The lines of the aligned document are the buffer's lines with every
/// table rewritten.
proof fn lemma_align_lines(b: Seq<u8>, nodes: Seq<MdNodeView>)
    ensures
        buffer_lines_spec(align_spec(b, nodes)) == apply_tables(buffer_lines_spec(b), group(nodes)),
{
    let ls = split(b, NL());
    let lines = buffer_lines_spec(b);
    lemma_split_len(b, NL());
    lemma_split_pieces(b, NL());
    assert forall|k: int| 0 <= k < lines.len() implies nl_free(#[trigger] lines[k]) by {
        assert(lines[k] == ls[k]);
        assert forall|i: int| 0 <= i < lines[k].len() implies lines[k][i] != NL() by {
            assert(ls[k][i] != NL());
        }
    }
    let out = apply_tables(lines, group(nodes));
    lemma_apply_nl_free(lines, group(nodes));
    let text = join(out, NL());
    if out.len() >= 1 {
        assert forall|k: int, j: int| 0 <= k < out.len() && 0 <= j < out[k].len() implies out[k][j] != NL() by {
            assert(nl_free(out[k]));
        }
        lemma_split_join(out, NL());
    } else {
        assert(text =~= Seq::<u8>::empty());
        assert(split(text, NL()) =~= seq![Seq::<u8>::empty()]);
    }
    if b.len() > 0 && b.last() == NL() {
        assert(ls == split(b.drop_last(), NL()).push(Seq::<u8>::empty()));
        lemma_split_len(b.drop_last(), NL());
        assert(lines =~= split(b.drop_last(), NL()));
        let r = text.push(NL());
        assert(r.drop_last() =~= text);
        assert(split(r, NL()) == split(text, NL()).push(Seq::<u8>::empty()));
        assert(split(r, NL()).drop_last() =~= out);
    } else if b.len() > 0 {
        assert(ls.last().len() > 0) by {
            lemma_split_len(b.drop_last(), NL());
        }
        assert(lines == ls);
        assert(nl_free(out[out.len() - 1]));
        assert(lines[lines.len() - 1].len() > 0);
        assert(out.last().len() > 0);
    } else {
        assert(ls =~= seq![Seq::<u8>::empty()]);
        assert(lines.len() == 0);
        assert(out.len() == 0);
    }
}

/// Whether no two of the tables that can be rewritten share a line.
pub open spec fn tables_apart(tables: Seq<TableNodeView>, lines: Seq<Seq<u8>>) -> bool {
    forall|i: int, j: int|
        0 <= i < j < tables.len() ==> match (#[trigger] read_spec(tables[i], lines), #[trigger] read_spec(tables[j], lines)) {
            (Some(a), Some(c)) => a.last < c.first || c.last < a.first,
            _ => true,
        }
}

/// With the tables apart, rewriting them all leaves each one's lines as
/// rewriting it alone does.
proof fn lemma_apply_one(lines: Seq<Seq<u8>>, tables: Seq<TableNodeView>, j: int, t: TableView)
    requires
        tables_apart(tables, lines),
        0 <= j < tables.len(),
        read_spec(tables[j], lines) == Some(t),
    ensures
        forall|k: int|
            t.first - 1 <= k < t.last ==> #[trigger] apply_tables(lines, tables)[k] == table_lines(t, lines)[k - (t.first
                - 1)],
    decreases tables.len(),
{
    lemma_read_range(tables[j], lines);
    lemma_apply_tables(lines, tables);
    let init = tables.drop_last();
    let n = tables.len() - 1;
    lemma_apply_tables(lines, init);
    if j < n {
        assert(tables_apart(init, lines)) by {
            assert forall|a: int, c: int| 0 <= a < c < init.len() implies match (#[trigger] read_spec(init[a], lines), #[trigger] read_spec(init[c], lines)) {
                (Some(x), Some(y)) => x.last < y.first || y.last < x.first,
                _ => true,
            } by {
                assert(init[a] == tables[a] && init[c] == tables[c]);
                assert(read_spec(tables[a], lines) == read_spec(init[a], lines));
            }
        }
        assert(init[j] == tables[j]);
        lemma_apply_one(lines, init, j, t);
        lemma_read_range(tables.last(), lines);
        match read_spec(tables.last(), lines) {
            None => {},
            Some(u) => {
                assert(read_spec(tables[j], lines) == Some(t));
                assert(read_spec(tables[n], lines) == Some(u));
                assert(t.last < u.first || u.last < t.first);
                let o = apply_tables(lines, init);
                assert forall|k: int| t.first - 1 <= k < t.last implies #[trigger] apply_tables(lines, tables)[k]
                    == table_lines(t, lines)[k - (t.first - 1)] by {
                    assert(apply_tables(lines, tables)[k] == o[k]);
                }
            },
        }
    } else {
        assert(tables.last() == tables[j]);
    }
}

/// Aligning the whole document rewrites each table exactly as aligning the
/// table under the cursor does: the lines the edit replaces come out of
/// `align` as the edit's lines, as long as no two tables comrak reports
/// share a line.
pub proof fn lemma_align_agrees_with_edit(b: Seq<u8>, nodes: Seq<MdNodeView>, row: usize, col: usize)
    requires
        tables_apart(group(nodes), buffer_lines_spec(b)),
        edit_spec(b, nodes, row, col) is Some,
    ensures
        ({
            let e = edit_spec(b, nodes, row, col)->Some_0;
            let out = buffer_lines_spec(align_spec(b, nodes));
            &&& 1 <= e.first <= e.last <= out.len()
            &&& out.subrange(e.first - 1, e.last as int) == e.lines
        }),
{
    let lines = buffer_lines_spec(b);
    let tables = group(nodes);
    lemma_align_lines(b, nodes);
    lemma_apply_tables(lines, tables);
    lemma_table_at(tables, lines, row, 0);
    lemma_table_at_read(tables, lines, row, 0);
    let t = table_at(tables, lines, row, 0)->Some_0;
    let j = choose|j: int| 0 <= j < tables.len() && read_spec(tables[j], lines) == Some(t);
    lemma_apply_one(lines, tables, j, t);
    let e = edit_spec(b, nodes, row, col)->Some_0;
    let out = apply_tables(lines, tables);
    assert(out.subrange(e.first - 1, e.last as int) =~= e.lines) by {
        assert forall|k: int| 0 <= k < e.lines.len() implies out.subrange(e.first - 1, e.last as int)[k] == e.lines[k] by {
            assert(out[t.first - 1 + k] == table_lines(t, lines)[k]);
        }
    }
}

/// A delimiter cell is exactly as wide as its column, so the delimiter row
/// lines up with the rows around it: dashes throughout, with a colon as the
/// first byte for a left- or center-aligned column and as the last for a
/// right- or center-aligned one.
pub proof fn lemma_delimiter_cell(a: Align, w: usize)
    requires
        w >= MIN_WIDTH,
    ensures
        delimiter_spec(a, w).len() == w,
        forall|i: int|
            0 <= i < w ==> #[trigger] delimiter_spec(a, w)[i] == if (i == 0 && (a is Left || a is Center)) || (i == w - 1
                && (a is Right || a is Center)) {
                COLON()
            } else {
                DASH()
            },
{
    let d = delimiter_spec(a, w);
    match a {
        Align::Center => {
            let m = dashes(sat_sub(w as int, 2));
            assert(d == seq![COLON()] + m + seq![COLON()]);
            assert forall|i: int| 0 <= i < w implies #[trigger] d[i] == if i == 0 || i == w - 1 { COLON() } else { DASH() } by {
                if 0 < i < w - 1 {
                    assert(d[i] == m[i - 1]);
                }
            }
        },
        Align::Right => {
            let m = dashes(sat_sub(w as int, 1));
            assert(d == m + seq![COLON()]);
            assert forall|i: int| 0 <= i < w implies #[trigger] d[i] == if i == w - 1 { COLON() } else { DASH() } by {
                if i < w - 1 {
                    assert(d[i] == m[i]);
                }
            }
        },
        Align::Left => {
            let m = dashes(sat_sub(w as int, 1));
            assert(d == seq![COLON()] + m);
            assert forall|i: int| 0 <= i < w implies #[trigger] d[i] == if i == 0 { COLON() } else { DASH() } by {
                if i > 0 {
                    assert(d[i] == m[i - 1]);
                }
            }
        },
        Align::Plain => {},
    }
}

/// In a table read out of the buffer, every delimiter cell is as wide as
/// its column.
pub proof fn lemma_delimiters_fit(tn: TableNodeView, lines: Seq<Seq<u8>>)
    ensures
        match read_spec(tn, lines) {
            Some(t) => {
                let ds = delimiters_spec(t.aligns, t.widths);
                &&& ds.len() == t.widths.len()
                &&& forall|c: int| 0 <= c < ds.len() ==> (#[trigger] ds[c]).len() == t.widths[c]
            },
            None => true,
        },
{
    lemma_read_table(tn, lines);
    if let Some(t) = read_spec(tn, lines) {
        let ds = delimiters_spec(t.aligns, t.widths);
        assert forall|c: int| 0 <= c < ds.len() implies (#[trigger] ds[c]).len() == t.widths[c] by {
            assert(t.widths[c] >= MIN_WIDTH);
            lemma_delimiter_cell(t.aligns[c], t.widths[c]);
        }
    }
}

/// On a line of the table that holds none of its rows, which for a table
/// comrak reads is the delimiter line, realigning leaves the cursor in its
/// byte column, or at the end of the rewritten line when the line got
/// shorter than that.
pub proof fn lemma_cursor_off_the_rows(b: Seq<u8>, nodes: Seq<MdNodeView>, row: usize, col: usize)
    requires
        edit_spec(b, nodes, row, col) is Some,
        first_row(table_at(group(nodes), buffer_lines_spec(b), row, 0)->Some_0.rows, row, 0) is None,
    ensures
        ({
            let e = edit_spec(b, nodes, row, col)->Some_0;
            let len = e.lines[row - e.first].len();
            &&& e.first <= row <= e.last
            &&& col <= len ==> e.cursor_col == col
            &&& col > len ==> e.cursor_col == len
        }),
{
    lemma_edit_keeps_rows(b, nodes, row, col);
}

} // verus!
