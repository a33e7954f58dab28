//! Decoding of the saved-state dumps ("format files") written by the XeTeX
//! typesetting engine.
//!
//! The string pool, memory arena, equivalences table and control-sequence
//! hash regions, and the table of engine constants, use compact layouts of
//! this library's own (see `regions` and `engine`); they do not match the
//! layouts of those regions in dumps written by XeTeX itself.
pub mod base;
pub mod engine;
pub mod fonts;
pub mod format;
pub mod hyph;
pub mod reader;
pub mod regions;
pub mod trie;
