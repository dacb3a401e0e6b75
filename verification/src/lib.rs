//! Core of the Quill compiler driver: source locations, the mid-level
//! intermediate representation (MIR) and its construction from typed
//! expressions, the in-memory cache of source files, diagnostic rendering
//! and the command-line planning of the `quill` tool.

pub mod location;
pub mod types;
pub mod typed;
pub mod mir;
pub mod translate;
pub mod source_file;
pub mod text;
pub mod diagnostic;
pub mod emit;
pub mod cli;
pub mod project;
pub mod display;
pub mod check_hir;
