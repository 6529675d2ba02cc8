//! A verified parser for the KeyValues ("VDF") text format: nested
//! quoted-string key/value pairs, brace-delimited sub-tables, and
//! single-line `//` comments.
//!
//! The grammar is specified once, as spec functions over `Seq<char>`
//! (module [`grammar`]); the executable parser (module [`parser`]) is
//! proved to return exactly what the specification says, and module
//! [`laws`] proves the format's algebraic properties (round trips,
//! comment transparency, escape handling) against that specification.
//!
//! Deliberate policy choices, stated here once:
//! - the root of a parse accumulates *all* top-level `"key" value`
//!   pairs into one table; an input with no key at all is an empty
//!   table, not an error, and trailing text after the last recognized
//!   pair is ignored;
//! - tables preserve insertion order and keep keys unique: inserting
//!   an existing key overwrites its value in place (last write wins);
//! - lossy mode tolerates exactly one malformation: a quoted string
//!   left unterminated at end of input yields its partial contents.

pub mod grammar;
pub mod laws;
pub mod parser;
pub mod tree;
