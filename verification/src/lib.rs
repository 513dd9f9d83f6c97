//! Compiles MNF (MIDI Note Format) text scores into Standard MIDI Files.
//!
//! `parser` turns MNF source text into a `model::Song`; `encoder` turns a
//! song into the bytes of a Format 1 MIDI file; `text` holds the character
//! level helpers both rest on.

pub mod encoder;
pub mod model;
pub mod parser;
pub mod text;
