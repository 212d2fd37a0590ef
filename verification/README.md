# md-fmt

The formatting engine behind an editor plugin for Markdown and MDX: it
formats a whole document through comrak, holds MDX constructs out of comrak's
reach with placeholders, and realigns the GFM table under the cursor. The
library is written in Verus, and its logic carries contracts that Verus
proves.

- `src/text.rs`: byte-level text: slicing on character boundaries, line
  splitting, whitespace as `char::is_whitespace` sees it, searching and
  replacing.
- `src/format.rs`: settings, the comrak options they imply, the
  whitespace-only line pass, and the entry point `format`.
- `src/table.rs`: reading tables off comrak's tree, padding their columns,
  and the edit for the table under the cursor.
- `src/mdx.rs`: collecting MDX spans from the parser's tree, masking them,
  and pasting them back.
- `src/roundtrip.rs`: the proof that pasting the blobs back over a masked
  document gives the document back.
- `src/cli.rs`: the command line.
- `app/main.rs`: the binary: arguments, stdin, stdout, exit codes.

The calls into comrak, markdown-rs and unicode-width sit behind small trusted
wrappers whose contracts say that each result is a function of its
arguments; everything done with those results is verified.
