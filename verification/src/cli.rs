//! Argument parsing.
//!
//! Hand-rolled rather than delegating to an argument-parsing crate: the editor
//! plugin compiles this crate on the user's machine the first time they format
//! a buffer, so every dependency is paid for in time the user watches.

use vstd::prelude::*;
use vstd::string::*;

use crate::format::{Settings, SettingsView, default_settings};
use crate::text::{owned, push_str, same};

verus! {

/// The version the binary reports.
pub const VERSION: &'static str = "0.1.0";

/// What `--help` prints.
pub const USAGE: &'static str = "\
md-fmt - format Markdown and MDX on stdin, write the result to stdout

Usage:
    md-fmt [--mdx] [--width N] [--frontmatter DELIM | --no-frontmatter]
    md-fmt --table --row N --col N
    md-fmt --version
    md-fmt --help

Options:
    --mdx                Parse MDX constructs and preserve them verbatim.
    --width N            Wrap prose at N columns. 0 disables wrapping.
                         Default: 80.
    --frontmatter DELIM  Treat DELIM as the frontmatter fence. Default: ---
    --no-frontmatter     Do not recognize frontmatter.
    --table              Realign only the GFM table under the cursor, leaving
                         the rest of the document alone. Prints the line range
                         to replace, where the cursor ends up, and the
                         replacement:

                             FIRST LAST CURSOR_ROW CURSOR_COL
                             <one line per line of FIRST..=LAST>

                         Prints nothing and exits non-zero when the cursor is
                         not in a table.
    --row N              1-based cursor line, as from nvim_win_get_cursor.
    --col N              0-based byte cursor column, as from
                         nvim_win_get_cursor.
";

/// What the command line asks for.
pub enum Outcome {
    /// Format stdin with these settings.
    Run(Settings),
    /// Realign the table under this cursor position. The settings come along
    /// because the document has to be parsed the same way either command
    /// would parse it.
    Table { settings: Settings, row: usize, col: usize },
    /// Print this on stdout and exit successfully.
    Message(String),
}

/// What an `Outcome` holds, as plain values.
pub enum OutcomeView {
    Run(SettingsView),
    Table { settings: SettingsView, row: usize, col: usize },
    Message(Seq<char>),
}

impl View for Outcome {
    type V = OutcomeView;

    open spec fn view(&self) -> OutcomeView {
        match self {
            Outcome::Run(s) => OutcomeView::Run(s@),
            Outcome::Table { settings, row, col } => OutcomeView::Table {
                settings: settings@,
                row: *row,
                col: *col,
            },
            Outcome::Message(m) => OutcomeView::Message(m@),
        }
    }
}

pub open spec fn is_digit(c: char) -> bool {
    '0' <= c <= '9'
}

/// The number a run of decimal digits spells.
pub open spec fn digits_value(d: Seq<char>) -> nat
    decreases d.len(),
{
    if d.len() == 0 {
        0
    } else {
        digits_value(d.drop_last()) * 10 + ((d.last() as nat) - ('0' as nat)) as nat
    }
}

/// The digits of a number: what follows its optional `+` sign.
pub open spec fn unsigned_digits(s: Seq<char>) -> Seq<char> {
    if s.len() > 0 && s[0] == '+' {
        s.drop_first()
    } else {
        s
    }
}

/// What `str::parse::<usize>` makes of `s`: an optional `+`, then one or more
/// decimal digits whose value fits in a `usize`.
pub open spec fn parse_number(s: Seq<char>) -> Option<usize> {
    let d = unsigned_digits(s);
    if d.len() > 0 && (forall|i: int| 0 <= i < d.len() ==> is_digit(#[trigger] d[i]))
        && digits_value(d) <= usize::MAX {
        Some(digits_value(d) as usize)
    } else {
        None
    }
}

pub open spec fn version_message() -> Seq<char> {
    "md-fmt "@ + VERSION@ + "\n"@
}

pub open spec fn expects_value(flag: Seq<char>) -> Seq<char> {
    flag + " expects a value"@
}

pub open spec fn expects_number(flag: Seq<char>, value: Seq<char>) -> Seq<char> {
    flag + " expects a number, got `"@ + value + "`"@
}

pub open spec fn unknown_argument(arg: Seq<char>) -> Seq<char> {
    "unknown argument `"@ + arg + "`\n\n"@ + USAGE@
}

pub open spec fn table_needs(flag: Seq<char>) -> Seq<char> {
    "--table needs "@ + flag + "\n\n"@ + USAGE@
}

pub open spec fn with_mdx(s: SettingsView) -> SettingsView {
    SettingsView { mdx: true, width: s.width, frontmatter: s.frontmatter }
}

pub open spec fn with_width(s: SettingsView, width: usize) -> SettingsView {
    SettingsView { mdx: s.mdx, width, frontmatter: s.frontmatter }
}

pub open spec fn with_frontmatter(s: SettingsView, f: Option<Seq<char>>) -> SettingsView {
    SettingsView { mdx: s.mdx, width: s.width, frontmatter: f }
}

/// What the arguments from `i` on make of the command line, given what the
/// ones before `i` have set: the settings, whether `--table` was seen, and
/// the `--row` and `--col` values so far.
pub open spec fn parse_from(
    args: Seq<Seq<char>>,
    i: int,
    s: SettingsView,
    table: bool,
    row: Option<usize>,
    col: Option<usize>,
) -> Result<OutcomeView, Seq<char>>
    decreases args.len() - i,
{
    if i < 0 || i >= args.len() {
        if table {
            match (row, col) {
                (Some(r), Some(c)) => Ok(OutcomeView::Table { settings: s, row: r, col: c }),
                (None, _) => Err(table_needs("--row"@)),
                (Some(_), None) => Err(table_needs("--col"@)),
            }
        } else {
            Ok(OutcomeView::Run(s))
        }
    } else {
        let a = args[i];
        if a == "--help"@ || a == "-h"@ {
            Ok(OutcomeView::Message(USAGE@))
        } else if a == "--version"@ || a == "-V"@ {
            Ok(OutcomeView::Message(version_message()))
        } else if a == "--mdx"@ {
            parse_from(args, i + 1, with_mdx(s), table, row, col)
        } else if a == "--no-frontmatter"@ {
            parse_from(args, i + 1, with_frontmatter(s, None), table, row, col)
        } else if a == "--table"@ {
            parse_from(args, i + 1, s, true, row, col)
        } else if a == "--width"@ || a == "--frontmatter"@ || a == "--row"@ || a == "--col"@ {
            if i + 1 >= args.len() {
                Err(expects_value(a))
            } else {
                let v = args[i + 1];
                if a == "--frontmatter"@ {
                    parse_from(args, i + 2, with_frontmatter(s, Some(v)), table, row, col)
                } else {
                    match parse_number(v) {
                        None => Err(expects_number(a, v)),
                        Some(n) => if a == "--width"@ {
                            parse_from(args, i + 2, with_width(s, n), table, row, col)
                        } else if a == "--row"@ {
                            parse_from(args, i + 2, s, table, Some(n), col)
                        } else {
                            parse_from(args, i + 2, s, table, row, Some(n))
                        },
                    }
                }
            }
        } else {
            Err(unknown_argument(a))
        }
    }
}

/// What the command line `args` asks for.
pub open spec fn parse_spec(args: Seq<Seq<char>>) -> Result<OutcomeView, Seq<char>> {
    parse_from(args, 0, default_settings(), false, None, None)
}

pub open spec fn args_view(args: Seq<String>) -> Seq<Seq<char>> {
    args.map_values(|a: String| a@)
}

proof fn lemma_digits_prefix(d: Seq<char>, k: int)
    requires
        0 <= k <= d.len(),
    ensures
        digits_value(d.subrange(0, k)) <= digits_value(d),
    decreases d.len() - k,
{
    if k < d.len() {
        lemma_digits_prefix(d, k + 1);
        assert(d.subrange(0, k + 1).drop_last() =~= d.subrange(0, k));
    } else {
        assert(d.subrange(0, k) =~= d);
    }
}

/// `s` read as a number, as `str::parse::<usize>` reads it.
pub fn number(s: &str) -> (r: Option<usize>)
    ensures
        r == parse_number(s@),
{
    let n = s.unicode_len();
    let mut start: usize = 0;
    if n > 0 && s.get_char(0) == '+' {
        start = 1;
    }
    let ghost d = unsigned_digits(s@);
    assert(d =~= s@.subrange(start as int, n as int));
    if start >= n {
        assert(d.len() == 0);
        return None;
    }
    let mut value: usize = 0;
    let mut j: usize = start;
    while j < n
        invariant
            n == s@.len(),
            start < n,
            d == unsigned_digits(s@),
            d =~= s@.subrange(start as int, n as int),
            start <= j <= n,
            value == digits_value(d.subrange(0, j - start)),
            forall|k: int| 0 <= k < j - start ==> is_digit(#[trigger] d[k]),
        decreases n - j,
    {
        let c = s.get_char(j);
        assert(c == d[j - start]);
        if !('0' <= c && c <= '9') {
            assert(!is_digit(d[j - start]));
            assert(!(forall|i: int| 0 <= i < d.len() ==> is_digit(#[trigger] d[i])));
            return None;
        }
        assert(d.subrange(0, j + 1 - start).drop_last() =~= d.subrange(0, j - start));
        let digit = (c as u32 - '0' as u32) as usize;
        let grown = value.checked_mul(10);
        match grown {
            None => {
                proof {
                    lemma_digits_prefix(d, j + 1 - start);
                }
                return None;
            },
            Some(g) => match g.checked_add(digit) {
                None => {
                    proof {
                        lemma_digits_prefix(d, j + 1 - start);
                    }
                    return None;
                },
                Some(v) => {
                    value = v;
                },
            },
        }
        j = j + 1;
    }
    assert(d.subrange(0, n - start) =~= d);
    Some(value)
}

/// Consume the value that follows a flag, advancing the index past it.
fn next<'a>(args: &'a [String], i: &mut usize, flag: &str) -> (r: Result<&'a str, String>)
    requires
        *old(i) < args@.len(),
    ensures
        *final(i) == *old(i) + 1,
        match r {
            Ok(v) => *final(i) < args@.len() && v@ == args@[*final(i) as int]@,
            Err(e) => *final(i) >= args@.len() && e@ == expects_value(flag@),
        },
{
    let n = args.len();
    *i = *i + 1;
    if *i < n {
        Ok(args[*i].as_str())
    } else {
        let mut e = owned(flag);
        push_str(&mut e, " expects a value");
        Err(e)
    }
}

fn expects_number_message(flag: &str, value: &str) -> (m: String)
    ensures
        m@ == expects_number(flag@, value@),
{
    let mut m = owned(flag);
    push_str(&mut m, " expects a number, got `");
    push_str(&mut m, value);
    push_str(&mut m, "`");
    m
}

fn table_needs_message(flag: &str) -> (m: String)
    ensures
        m@ == table_needs(flag@),
{
    let mut m = owned("--table needs ");
    push_str(&mut m, flag);
    push_str(&mut m, "\n\n");
    push_str(&mut m, USAGE);
    m
}

/// Read the command line.
pub fn parse(args: &[String]) -> (r: Result<Outcome, String>)
    ensures
        match r {
            Ok(o) => parse_spec(args_view(args@)) == Ok::<OutcomeView, Seq<char>>(o@),
            Err(e) => parse_spec(args_view(args@)) == Err::<OutcomeView, Seq<char>>(e@),
        },
{
    let ghost view = args_view(args@);
    let mut settings = Settings::default();
    let mut table = false;
    let mut row: Option<usize> = None;
    let mut col: Option<usize> = None;
    let mut i: usize = 0;

    while i < args.len()
        invariant
            view == args_view(args@),
            view.len() == args@.len(),
            i <= args@.len(),
            parse_spec(view) == parse_from(view, i as int, settings@, table, row, col),
        decreases args@.len() - i,
    {
        let arg = args[i].as_str();
        assert(arg@ == view[i as int]);
        proof {
            reveal_strlit("--width");
            reveal_strlit("--frontmatter");
            reveal_strlit("--row");
            reveal_strlit("--col");
        }
        if same(arg, "--help") || same(arg, "-h") {
            return Ok(Outcome::Message(owned(USAGE)));
        } else if same(arg, "--version") || same(arg, "-V") {
            let mut m = owned("md-fmt ");
            push_str(&mut m, VERSION);
            push_str(&mut m, "\n");
            return Ok(Outcome::Message(m));
        } else if same(arg, "--mdx") {
            settings.mdx = true;
        } else if same(arg, "--no-frontmatter") {
            settings.frontmatter = None;
        } else if same(arg, "--table") {
            table = true;
        } else if same(arg, "--width") {
            let value = next(args, &mut i, "--width")?;
            assert(value@ == view[i as int]);
            match number(value) {
                Some(n) => {
                    settings.width = n;
                },
                None => {
                    return Err(expects_number_message("--width", value));
                },
            }
        } else if same(arg, "--frontmatter") {
            let value = next(args, &mut i, "--frontmatter")?;
            assert(value@ == view[i as int]);
            settings.frontmatter = Some(owned(value));
        } else if same(arg, "--row") {
            let value = next(args, &mut i, "--row")?;
            assert(value@ == view[i as int]);
            match number(value) {
                Some(n) => {
                    row = Some(n);
                },
                None => {
                    return Err(expects_number_message("--row", value));
                },
            }
        } else if same(arg, "--col") {
            let value = next(args, &mut i, "--col")?;
            assert(value@ == view[i as int]);
            match number(value) {
                Some(n) => {
                    col = Some(n);
                },
                None => {
                    return Err(expects_number_message("--col", value));
                },
            }
        } else {
            let mut m = owned("unknown argument `");
            push_str(&mut m, arg);
            push_str(&mut m, "`\n\n");
            push_str(&mut m, USAGE);
            return Err(m);
        }
        i = i + 1;
    }

    if table {
        match row {
            None => {
                return Err(table_needs_message("--row"));
            },
            Some(r) => match col {
                None => {
                    return Err(table_needs_message("--col"));
                },
                Some(c) => {
                    return Ok(Outcome::Table { settings, row: r, col: c });
                },
            },
        }
    }
    Ok(Outcome::Run(settings))
}

/// The settings with MDX turned on and nothing else changed.
pub open spec fn mdx_on(s: SettingsView) -> SettingsView {
    SettingsView { frontmatter: s.frontmatter, width: s.width, mdx: true }
}

/// An outcome with MDX turned on in its settings, and nothing else changed.
pub open spec fn outcome_mdx_on(r: Result<OutcomeView, Seq<char>>) -> Result<OutcomeView, Seq<char>> {
    match r {
        Ok(OutcomeView::Run(s)) => Ok(OutcomeView::Run(mdx_on(s))),
        Ok(OutcomeView::Table { settings, row, col }) => Ok(OutcomeView::Table { settings: mdx_on(settings), row, col }),
        other => other,
    }
}

proof fn lemma_mdx_shift(args: Seq<Seq<char>>, i: int, s: SettingsView, table: bool, row: Option<usize>, col: Option<usize>)
    requires
        0 <= i <= args.len(),
    ensures
        parse_from(seq!["--mdx"@] + args, i + 1, mdx_on(s), table, row, col) == outcome_mdx_on(
            parse_from(args, i, s, table, row, col),
        ),
    decreases args.len() - i,
{
    let full = seq!["--mdx"@] + args;
    assert(full.len() == args.len() + 1);
    if i < args.len() {
        let a = args[i];
        assert(full[i + 1] == a);
        if i + 1 < args.len() {
            assert(full[i + 2] == args[i + 1]);
        }
        if a == "--mdx"@ {
            assert(with_mdx(mdx_on(s)) == mdx_on(with_mdx(s)));
            lemma_mdx_shift(args, i + 1, with_mdx(s), table, row, col);
        } else if a == "--no-frontmatter"@ {
            assert(with_frontmatter(mdx_on(s), None) == mdx_on(with_frontmatter(s, None)));
            lemma_mdx_shift(args, i + 1, with_frontmatter(s, None), table, row, col);
        } else if a == "--table"@ {
            lemma_mdx_shift(args, i + 1, s, true, row, col);
        } else if (a == "--width"@ || a == "--frontmatter"@ || a == "--row"@ || a == "--col"@) && i + 1 < args.len() {
            let v = args[i + 1];
            if a == "--frontmatter"@ {
                assert(with_frontmatter(mdx_on(s), Some(v)) == mdx_on(with_frontmatter(s, Some(v))));
                lemma_mdx_shift(args, i + 2, with_frontmatter(s, Some(v)), table, row, col);
            } else {
                match parse_number(v) {
                    None => {},
                    Some(n) => {
                        if a == "--width"@ {
                            assert(with_width(mdx_on(s), n) == mdx_on(with_width(s, n)));
                            lemma_mdx_shift(args, i + 2, with_width(s, n), table, row, col);
                        } else if a == "--row"@ {
                            lemma_mdx_shift(args, i + 2, s, table, Some(n), col);
                        } else {
                            lemma_mdx_shift(args, i + 2, s, table, row, Some(n));
                        }
                    },
                }
            }
        }
    }
}

/// `--mdx` turns MDX on and changes nothing else: putting it in front of any
/// command line gives what that command line gives, with MDX on in its
/// settings; the wrap width and the frontmatter fence stay as the rest of
/// the line, or the defaults (80 and `---`), leave them.
pub proof fn lemma_mdx_flag_only_sets_mdx(args: Seq<Seq<char>>)
    ensures
        parse_spec(seq!["--mdx"@] + args) == outcome_mdx_on(parse_spec(args)),
        parse_spec(seq!["--mdx"@]) == Ok::<OutcomeView, Seq<char>>(
            OutcomeView::Run(SettingsView { mdx: true, width: 80, frontmatter: Some("---"@) }),
        ),
{
    let full = seq!["--mdx"@] + args;
    assert(full[0] == "--mdx"@);
    reveal_strlit("--mdx");
    reveal_strlit("--help");
    reveal_strlit("-h");
    reveal_strlit("--version");
    reveal_strlit("-V");
    assert("--mdx"@ != "--help"@ && "--mdx"@ != "--version"@);
    assert("--mdx"@ != "-h"@ && "--mdx"@ != "-V"@);
    assert(parse_spec(full) == parse_from(full, 1, with_mdx(default_settings()), false, None, None));
    lemma_mdx_shift(args, 0, default_settings(), false, None, None);
    let e = Seq::<Seq<char>>::empty();
    lemma_mdx_shift(e, 0, default_settings(), false, None, None);
    assert(seq!["--mdx"@] + e =~= seq!["--mdx"@]);
}

} // verus!
