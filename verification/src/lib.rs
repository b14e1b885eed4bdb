//! Chunked text-buffer substrate for a terminal editor.
//!
//! The library divides a flat byte file into fixed-size chunks that are
//! loaded, cached, mutated and written back independently, and presents the
//! bytes as a navigable sequence of logical lines.
//!
//! - [`memstore`] holds the chunk cache (`Memstore`) over a pluggable
//!   positional byte store (`LoadStore`).
//! - [`lines`] defines logical lines and the byte-level split/join model.
//! - [`virtual_file`] is the line cursor layered on top of the chunk cache.
//! - [`command_registry`] is the editor's dynamic command table.

pub mod lines;

pub mod memstore;

pub mod virtual_file;

pub mod keybindings;

pub mod commands;

pub mod command_registry;
