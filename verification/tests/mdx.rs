//! The MDX masking pipeline, a piece at a time, with syntax trees written
//! out by hand where the parser would otherwise supply them.

use md_fmt::format::Settings;
use md_fmt::mdx::{
    Blob, Marks, MdxNode, Span, collect, format_tree, mask, placeholders_available, reindent,
    restore, sort_by_start, spans_valid,
};

fn mdx() -> Settings {
    Settings {
        mdx: true,
        ..Settings::default()
    }
}

fn span(start: usize, end: usize, flow: bool) -> Span {
    Span { start, end, flow }
}

#[test]
fn marks_avoid_what_the_document_holds() {
    let plain = Marks::for_input("nothing special");
    assert_eq!((plain.nonce, plain.open, plain.close), (0, '\u{e000}', '\u{e001}'));

    let taken = Marks::for_input("<!--mdfmt0: and <!--mdfmt1: and \u{e001}");
    assert_eq!((taken.nonce, taken.open, taken.close), (2, '\u{e002}', '\u{e003}'));
}

#[test]
fn placeholders_have_their_shapes() {
    let marks = Marks::for_input("");
    assert_eq!(marks.flow(3), "<!--mdfmt0:3-->");
    assert_eq!(marks.inline(12, 0), "\u{e000}0:12\u{e001}");
    // Nine bytes of token, padded out to twelve.
    assert_eq!(marks.inline(1, 12), "\u{e000}0:1\u{e001}mmm");
    assert_eq!(marks.placeholder(4, &span(0, 3, true), "{x}"), "<!--mdfmt0:4-->");
    assert_eq!(marks.placeholder(0, &span(0, 3, false), "a\nb"), "\u{e000}0:0\u{e001}");
    assert_eq!(
        marks.placeholder(0, &span(0, 15, false), "{props.counter}"),
        "\u{e000}0:0\u{e001}mmmmmm"
    );
}

#[test]
fn collect_keeps_outermost_mdx_nodes() {
    let nodes = vec![
        MdxNode(0, Some((0, 40)), 3),
        MdxNode(2, Some((0, 20)), 1),
        // Inside the JSX element: not a construct of its own.
        MdxNode(5, Some((5, 8)), 0),
        MdxNode(0, Some((21, 40)), 1),
        MdxNode(5, Some((30, 33)), 0),
        MdxNode(1, Some((35, 40)), 0),
    ];
    let spans = collect(&nodes).expect("positions");
    let got: Vec<(usize, usize, bool)> = spans.iter().map(|s| (s.start, s.end, s.flow)).collect();
    assert_eq!(got, [(0, 20, true), (30, 33, false), (35, 40, true)]);
}

#[test]
fn an_mdx_node_without_a_position_is_an_error() {
    assert!(collect(&vec![MdxNode(0, None, 1), MdxNode(4, None, 0)]).is_none());
    // A node that is not MDX may lack one.
    assert!(collect(&vec![MdxNode(0, None, 0)]).is_some());
}

#[test]
fn spans_sort_by_start_keeping_ties_in_order() {
    let sorted = sort_by_start(&vec![span(9, 10, true), span(2, 3, false), span(9, 9, false), span(0, 1, true)]);
    let got: Vec<(usize, usize, bool)> = sorted.iter().map(|s| (s.start, s.end, s.flow)).collect();
    assert_eq!(got, [(0, 1, true), (2, 3, false), (9, 10, true), (9, 9, false)]);
}

#[test]
fn spans_must_fit_the_document() {
    let input = "ab\u{e9}cd";
    assert!(spans_valid(input, &vec![span(0, 1, true), span(1, 2, false)]));
    assert!(!spans_valid(input, &vec![span(1, 2, false), span(0, 1, true)]));
    assert!(!spans_valid(input, &vec![span(0, 3, true)]));
    assert!(!spans_valid(input, &vec![span(0, 9, true)]));
}

#[test]
fn masking_swaps_spans_for_placeholders() {
    let input = "text {x} more\n  <A>\n  b\n  </A>\n";
    let spans = vec![span(5, 8, false), span(16, 30, true)];
    let marks = Marks::for_input(input);
    let (masked, blobs) = mask(input, &spans, &marks);
    assert_eq!(masked, "text \u{e000}0:0\u{e001} more\n  <!--mdfmt0:1-->\n");
    assert_eq!(blobs.len(), 2);
    assert_eq!((blobs[0].text, blobs[0].indent), ("{x}", ""));
    assert_eq!((blobs[1].text, blobs[1].indent), ("<A>\n  b\n  </A>", "  "));
}

#[test]
fn restoring_the_masked_document_gives_it_back() {
    let input = "text {x} more\n  <A>\n  b\n  </A>\n";
    let spans = vec![span(5, 8, false), span(16, 30, true)];
    let marks = Marks::for_input(input);
    let (masked, blobs) = mask(input, &spans, &marks);
    assert_eq!(restore(&masked, &spans, &blobs, &marks), input);
}

#[test]
fn restoring_rebases_a_moved_blob() {
    let input = "<A>\n  b\n\n</A>\n";
    let spans = vec![span(0, 13, true)];
    let marks = Marks::for_input(input);
    let (_, blobs) = mask(input, &spans, &marks);
    let moved = "- item\n\n  <!--mdfmt0:0-->\n";
    assert_eq!(restore(moved, &spans, &blobs, &marks), "- item\n\n  <A>\n    b\n\n  </A>\n");
}

#[test]
fn reindenting_strips_the_old_indentation() {
    let blob = Blob { text: "<A>\n> x\n   \n>  y", indent: ">" };
    assert_eq!(reindent(&blob, "  "), "<A>\n   x\n   \n    y");
    assert_eq!(reindent(&blob, ">"), blob.text);
    let one_line = Blob { text: "{x}", indent: "" };
    assert_eq!(reindent(&one_line, "    "), "{x}");
}

#[test]
fn format_tree_reports_parser_errors() {
    let err = format_tree("x", &mdx(), Err("boom".to_string())).unwrap_err();
    assert_eq!(err, "could not parse MDX: boom");
}

#[test]
fn format_tree_reports_missing_positions() {
    let err = format_tree("{x}\n", &mdx(), Ok(vec![MdxNode(0, None, 1), MdxNode(3, None, 0)])).unwrap_err();
    assert_eq!(err, "MDX node has no source position");
}

#[test]
fn format_tree_refuses_spans_outside_the_document() {
    let err = format_tree("{x}\n", &mdx(), Ok(vec![MdxNode(0, None, 1), MdxNode(3, Some((0, 99)), 0)])).unwrap_err();
    assert_eq!(err, "MDX node spans do not fit the document");
}

#[test]
fn format_tree_keeps_the_blobs_it_is_told_about() {
    let input = "{a   b}\n\nsome *text*\n";
    let tree = vec![MdxNode(0, Some((0, 21)), 2), MdxNode(3, Some((0, 7)), 0), MdxNode(0, Some((9, 20)), 0)];
    let out = format_tree(input, &mdx(), Ok(tree)).expect("formats");
    assert_eq!(out, "{a   b}\n\nsome *text*\n");
}

#[test]
fn mdx_expressions_survive_formatting() {
    let out = md_fmt::mdx::format("# Title\n\n{1 +   2}\n\nA {  x  } b\n", &mdx()).expect("formats");
    assert_eq!(out, "# Title\n\n{1 +   2}\n\nA {  x  } b\n");
}

#[test]
fn placeholder_characters_are_usually_free() {
    assert!(placeholders_available("anything"));
    assert!(placeholders_available("\u{e000}\u{e003}"));
}

#[test]
fn the_source_indent_is_spaces_and_tabs_only() {
    for (input, start, end, indent) in [
        ("- item:\n\n  <Callout>", 11, 20, "  "),
        ("\t<X/>", 1, 5, "\t"),
        ("a <X/>", 2, 6, ""),
        ("> <X/>", 2, 6, ""),
    ] {
        let spans = vec![span(start, end, true)];
        let marks = Marks::for_input(input);
        let (_, blobs) = mask(input, &spans, &marks);
        assert_eq!(blobs[0].indent, indent, "{input:?}");
    }
}

#[test]
fn restoring_constructs_that_share_a_line_gives_them_back() {
    let input = "{a\nb} {c\nd}\n";
    let spans = vec![span(0, 5, false), span(6, 11, false)];
    let marks = Marks::for_input(input);
    let (masked, blobs) = mask(input, &spans, &marks);
    assert_eq!(restore(&masked, &spans, &blobs, &marks), input);
}

#[test]
fn restoring_text_without_placeholders_changes_nothing() {
    let input = "{x}\n";
    let spans = vec![span(0, 3, true)];
    let marks = Marks::for_input(input);
    let (_, blobs) = mask(input, &spans, &marks);
    let text = "no placeholder\n  here <!-- comment -->\n";
    assert_eq!(restore(text, &spans, &blobs, &marks), text);
}
