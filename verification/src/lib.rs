//! The formatting engine behind md-fmt: Markdown and MDX formatting, and the
//! realignment of GFM tables, as a verified library.

pub mod text;
pub mod format;
pub mod cli;
pub mod table;
pub mod mdx;
pub mod roundtrip;
