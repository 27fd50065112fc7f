//! Zero-copy decoder for brace-delimited, comma-separated event log records.
//!
//! Two file kinds share one grammar: a reference dictionary, whose records
//! fill small id-indexed tables, and period logs, whose records are
//! fixed-schema events that point into those tables by integer id.
//!
//! The format is defined once, as pure functions over a byte window
//! ([`grammar`], [`schema`]); the executable decoders ([`parser`],
//! [`events`], [`references`]) are proved to follow those functions byte for
//! byte, errors and cursor offsets included. On top of that stand the laws
//! of the format: text handed out is the window's own bytes, unescaping
//! leaves plain text alone, tables stay dense and never shrink, a malformed
//! record costs nothing but itself, and decoding does not depend on where
//! the input was cut into chunks ([`window`]).
//!
//! Nothing here reads a file. A driver fills a buffer, calls
//! [`events::parse_chunk`] or [`references::References::parse_chunk`], and
//! fills again from the offset it is given.

pub mod calendar;
pub mod events;
pub mod grammar;
pub mod ident;
pub mod parser;
pub mod references;
pub mod schema;
pub mod stream;
pub mod text;
pub mod window;
