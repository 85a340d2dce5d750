//! Parsers for a subset of HTML markup and of CSS style sheets.
pub mod source;
pub mod css;
pub mod dom;
pub mod html_parser;
