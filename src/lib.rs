//! A parser for OpenSSH-client-style configuration files.
//!
//! The input is a list of host blocks: a `Host name` header line followed by
//! `Key value` property lines, with blank lines, indentation, `#` comments,
//! `\r\n` or `\n` line ends and `Key=value` separators allowed anywhere a
//! reader would expect them. [`hosts`] reads as many blocks as it can and
//! hands back the text it could not read; [`parse`] asks that nothing but
//! blank and comment lines is left.
//!
//! The grammar works on the UTF-8 bytes of the input. Names and keys end at
//! any whitespace character (those of `char::is_whitespace`, multi-byte ones
//! included), at `#`, and for keys at `=`; values are trimmed of the same
//! whitespace characters. Separators are spaces, tabs and `=`, and line ends
//! are `\n` and `\r\n`, as in OpenSSH. Each name, key and value handed back
//! is a slice of the input that starts and ends on a character boundary,
//! borrowed and not copied.
//!
//! - `grammar` states each step of the grammar as a spec function on bytes;
//! - `parser` holds the executable parsers, proved to compute those steps;
//! - `document` holds the parsed types and what they stand for;
//! - `laws`, `layout`, `prefix` and `line_endings` prove what holds across
//!   several parses: well-formed files are read whole and in order, reading
//!   again what was consumed or what was left repeats and loses nothing, and
//!   `\r\n` reads as `\n`.
pub mod document;
pub mod grammar;
pub mod laws;
pub mod layout;
pub mod line_endings;
pub mod parser;
pub mod prefix;
pub mod text;

pub use document::{Host, Property};
pub use grammar::ParseError;
pub use parser::{
    comment, host_block, host_line, hosts, parse, properties, property_line, space_or_comment,
    space_or_equals, spaces_or_comments, string,
};
