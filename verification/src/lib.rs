//! A streaming reader for Portable Game Notation (PGN), the line-oriented
//! text format for chess games.
//!
//! The reader consumes a byte stream and emits structured callbacks to a
//! caller-supplied [`visitor::Visitor`]: tag pairs, move tokens in standard
//! algebraic notation (SAN), numeric annotation glyphs (NAGs), comments,
//! variations, and game outcomes.  It is tolerant of malformed input —
//! unrecognized tokens are dropped rather than aborting a game — but strict
//! about framing, so a long concatenation of games parses deterministically.
//!
//! Everything the reader does is specified against a mathematical model of
//! the PGN grammar in [`model`]: each public operation states exactly which
//! prefix of the input it consumes and which events it produces.

pub mod buffer;
pub mod laws;
pub mod model;
pub mod reader;
pub mod trusted;
pub mod types;
pub mod visitor;
