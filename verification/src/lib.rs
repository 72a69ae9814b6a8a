//! Synthesis engine for a merged Japanese lookup dictionary.
//!
//! The library takes fully parsed records from several lexical sources
//! (a primary word-sense dictionary, a pitch-accent table, and auxiliary
//! term/name/kanji dictionaries), indexes them by a common
//! (writing, reading) key, expands each word into the surface forms a
//! reader might look up (including rule-based conjugations), renders the
//! merged definition markup, and assembles the final ordered entry list.
//! Reading the source files and packaging the output belong to the
//! callers; everything here is pure computation over in-memory values.

pub mod assemble;
pub mod conjugation;
pub mod expand;
pub mod index;
pub mod kana;
pub mod records;
pub mod render;
pub mod text;
