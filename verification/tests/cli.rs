//! The command line: what each flag asks for, and the errors it answers.

use md_fmt::cli::{Outcome, USAGE, VERSION, number, parse};

fn args(list: &[&str]) -> Vec<String> {
    list.iter().map(|a| a.to_string()).collect()
}

fn message(list: &[&str]) -> String {
    match parse(&args(list)) {
        Ok(Outcome::Message(m)) => m,
        _ => panic!("expected a message"),
    }
}

fn error(list: &[&str]) -> String {
    match parse(&args(list)) {
        Err(e) => e,
        Ok(_) => panic!("expected an error"),
    }
}

#[test]
fn no_arguments_formats_with_the_defaults() {
    match parse(&args(&[])) {
        Ok(Outcome::Run(s)) => {
            assert!(!s.mdx);
            assert_eq!(s.width, 80);
            assert_eq!(s.frontmatter.as_deref(), Some("---"));
        }
        _ => panic!("expected a run"),
    }
}

#[test]
fn help_prints_the_usage() {
    assert_eq!(message(&["--help"]), USAGE);
    assert_eq!(message(&["-h", "--bogus"]), USAGE);
}

#[test]
fn version_prints_the_version() {
    assert_eq!(VERSION, "0.1.0");
    assert_eq!(message(&["--version"]), "md-fmt 0.1.0\n");
    assert_eq!(message(&["-V"]), "md-fmt 0.1.0\n");
}

#[test]
fn flags_set_the_settings() {
    match parse(&args(&["--mdx", "--width", "40", "--frontmatter", "+++"])) {
        Ok(Outcome::Run(s)) => {
            assert!(s.mdx);
            assert_eq!(s.width, 40);
            assert_eq!(s.frontmatter.as_deref(), Some("+++"));
        }
        _ => panic!("expected a run"),
    }
    match parse(&args(&["--frontmatter", "+++", "--no-frontmatter"])) {
        Ok(Outcome::Run(s)) => assert!(s.frontmatter.is_none()),
        _ => panic!("expected a run"),
    }
}

#[test]
fn table_takes_a_row_and_a_column() {
    match parse(&args(&["--table", "--row", "3", "--col", "+7", "--width", "0"])) {
        Ok(Outcome::Table { settings, row, col }) => {
            assert_eq!((row, col), (3, 7));
            assert_eq!(settings.width, 0);
        }
        _ => panic!("expected a table"),
    }
}

#[test]
fn table_without_a_row_or_column_is_an_error() {
    assert_eq!(error(&["--table"]), format!("--table needs --row\n\n{USAGE}"));
    assert_eq!(error(&["--table", "--row", "1"]), format!("--table needs --col\n\n{USAGE}"));
}

#[test]
fn bad_values_are_errors() {
    assert_eq!(error(&["--width", "wide"]), "--width expects a number, got `wide`");
    assert_eq!(error(&["--width", "-1"]), "--width expects a number, got `-1`");
    assert_eq!(error(&["--row", ""]), "--row expects a number, got ``");
    assert_eq!(error(&["--col", "x"]), "--col expects a number, got `x`");
    assert_eq!(error(&["--width"]), "--width expects a value");
    assert_eq!(error(&["--frontmatter"]), "--frontmatter expects a value");
}

#[test]
fn unknown_arguments_are_errors() {
    assert_eq!(error(&["--wat"]), format!("unknown argument `--wat`\n\n{USAGE}"));
}

#[test]
fn numbers_read_as_str_parse_reads_them() {
    assert_eq!(number("0"), Some(0));
    assert_eq!(number("+12"), Some(12));
    assert_eq!(number("007"), Some(7));
    assert_eq!(number("18446744073709551615"), Some(usize::MAX));
    assert_eq!(number("18446744073709551616"), None);
    assert_eq!(number("+"), None);
    assert_eq!(number(""), None);
    assert_eq!(number("1 "), None);
}
