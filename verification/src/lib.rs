//! Core logic of a small POSIX-style shell: lexing, parsing, expansion,
//! globbing, the evaluation state machine and the pure parts of the
//! builtins, prompt rendering and completion.
pub mod text;
pub mod ast;
pub mod tokenize;
pub mod glob;
pub mod parser;
pub mod eval;
pub mod expand;
pub mod alias;
pub mod builtins;
pub mod helper;
pub mod tab;
pub mod theme;
pub mod commands;
pub mod process;
pub mod shell;
pub mod pathcache;
pub mod json;
