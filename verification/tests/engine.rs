//! The passes around comrak: emptying blank lines, aligning every table,
//! the edit the command line prints, and the text helpers they share.

use md_fmt::format::{Settings, blank_lines, commonmark, options};
use md_fmt::table::{MdNode, NodeKind, TableEdit, align, align_nodes, format_nodes};
use md_fmt::text::{replace_all, split_lines};

#[test]
fn blank_lines_empties_whitespace_outside_code() {
    let text = "a\n   \n```\n  \n```\n\t\nb";
    assert_eq!(blank_lines(text), "a\n\n```\n  \n```\n\nb");
}

#[test]
fn blank_lines_knows_a_fence_needs_three_markers() {
    // Two backticks open nothing; an info string with a backtick opens
    // nothing either; a tilde fence closes only on tildes.
    assert_eq!(blank_lines("``\n  \n"), "``\n\n");
    assert_eq!(blank_lines("``` a`b\n  \n"), "``` a`b\n\n");
    assert_eq!(blank_lines("~~~~\n  \n```\n \n~~~~~\n  \n"), "~~~~\n  \n```\n \n~~~~~\n\n");
}

#[test]
fn blank_lines_twice_is_blank_lines_once() {
    let text = "x\n  \n```\n \n\n```\n \t \ny\n";
    let once = blank_lines(text);
    assert_eq!(blank_lines(&once), once);
}

#[test]
fn commonmark_renders_through_comrak() {
    let out = commonmark("Heading\n===\n\n*  a\n*  b\n", &Settings::default()).expect("renders");
    assert_eq!(out, "# Heading\n\n- a\n- b\n");
}

#[test]
fn options_follow_the_settings() {
    let plain = options(&Settings::default());
    assert!(plain.table && plain.autolink && plain.prefer_fenced);
    assert_eq!(plain.width, 80);
    assert_eq!(plain.front_matter.as_deref(), Some("---"));
    let mdx = options(&Settings { mdx: true, frontmatter: None, width: 3, ..Settings::default() });
    assert!(!mdx.autolink);
    assert!(mdx.front_matter.is_none());
    assert_eq!(mdx.width, 3);
}

#[test]
fn a_document_without_a_trailing_newline_keeps_lacking_one() {
    let out = md_fmt::format::format("para one\n\npara two", &Settings::default()).expect("formats");
    assert_eq!(out, "para one\n\npara two");
    assert!(!out.ends_with('\n'));
}

#[test]
fn align_pads_every_table_and_leaves_the_rest() {
    let input = "text\n\n| a|bb |\n|-|-|\n|ccc|d|\n\nmore\n\n|x|\n|-|\n";
    let out = align(input, &Settings::default());
    assert_eq!(out, "text\n\n| a   | bb  |\n| --- | --- |\n| ccc | d   |\n\nmore\n\n| x   |\n| --- |\n");
    assert_eq!(split_lines(&out).len(), split_lines(input).len());
}

#[test]
fn align_nodes_reads_only_the_tables_it_is_given() {
    let input = "|a|b|\n|-|-|\n";
    assert_eq!(align_nodes(input, &Vec::new()), input);
    let nodes = vec![
        MdNode { kind: NodeKind::Other, start_line: 1, start_column: 1, end_line: 2, end_column: 5 },
        MdNode { kind: NodeKind::Table(vec![0, 3]), start_line: 1, start_column: 1, end_line: 2, end_column: 5 },
        MdNode { kind: NodeKind::Row, start_line: 1, start_column: 1, end_line: 1, end_column: 5 },
        MdNode { kind: NodeKind::Cell, start_line: 1, start_column: 2, end_line: 1, end_column: 2 },
        MdNode { kind: NodeKind::Cell, start_line: 1, start_column: 4, end_line: 1, end_column: 4 },
    ];
    assert_eq!(align_nodes(input, &nodes), "| a   | b   |\n| --- | --: |\n");
    let edit = format_nodes(input, &nodes, 2, 1).expect("a table");
    assert_eq!((edit.first, edit.last, edit.cursor_row), (1, 2, 2));
    assert_eq!(edit.lines, ["| a   | b   |", "| --- | --: |"]);
}

#[test]
fn an_edit_prints_its_range_cursor_and_lines() {
    let edit = TableEdit {
        first: 3,
        last: 4,
        lines: vec!["| a |".to_string(), "| - |".to_string()],
        cursor_row: 4,
        cursor_col: 12,
    };
    assert_eq!(edit.output(), "3 4 4 12\n| a |\n| - |\n");
}

#[test]
fn replace_all_replaces_left_to_right_without_overlap() {
    assert_eq!(replace_all("aaa", "aa", "b"), "ba");
    assert_eq!(replace_all("x<!-- end list -->y<!-- end list -->", "<!-- end list -->", "{/* end list */}"), "x{/* end list */}y{/* end list */}");
    assert_eq!(replace_all("none", "zz", "y"), "none");
}

#[test]
fn blank_lines_never_lengthens_the_text() {
    for text in ["", "  \n\t\n", "a\n \n```\n \n```\n", "no blanks"] {
        assert!(blank_lines(text).len() <= text.len());
    }
}

#[test]
fn align_keeps_the_line_count_and_the_final_newline() {
    for input in ["|a|b|\n|-|-|\n", "|a|b|\n|-|-|", "", "x\n\n|a|\n|-|\ny"] {
        let out = align(input, &Settings::default());
        assert_eq!(out.split('\n').count(), input.split('\n').count(), "{input:?}");
        assert_eq!(out.ends_with('\n'), input.ends_with('\n'), "{input:?}");
    }
}

#[test]
fn a_table_without_rows_is_not_read() {
    let input = "|a|b|\n|-|-|\n";
    let nodes = vec![MdNode { kind: NodeKind::Table(vec![0, 0]), start_line: 1, start_column: 1, end_line: 2, end_column: 5 }];
    assert!(format_nodes(input, &nodes, 1, 1).is_none());
    assert_eq!(align_nodes(input, &nodes), input);
}

#[test]
fn align_rewrites_a_table_as_the_edit_does() {
    let input = "| a|b |\n|-|-|\n|1|22|\n\ntext\n\n|x|\n|:-:|\n|long cell|\n";
    let all = align(input, &Settings::default());
    let lines: Vec<&str> = all.split('\n').collect();
    for row in [1, 3, 8] {
        let edit = md_fmt::table::format(input, &Settings::default(), row, 1).expect("a table");
        assert_eq!(lines[edit.first - 1..edit.last].to_vec(), edit.lines, "row {row}");
    }
}
