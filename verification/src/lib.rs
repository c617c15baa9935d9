//! Front-end core of an incremental source-processing pipeline for a
//! bracket-based language: a layered, error-recovering lexing stack.
//!
//! Raw bytes flow left to right through pure stages:
//! segmenter (`source_map`) -> chunker (`chunks`) -> tokenizer (`lexer`)
//! -> bracket tree (`bracer`) -> line view (`lines`).
//! Every stage is total: errors are recorded as data, never as failures.
//! The module graph orders modules by their dependencies, and `escapes`
//! processes the escape sequences of string literal bodies.
//!
//! Each stage's contract equates its output with a specification function
//! of its input alone; `laws` states and proves the cross-stage properties.

pub mod text;

pub mod search;

pub mod chars;

pub mod chunk;

pub mod source_map;

pub mod chunks;

pub mod lexer;

pub mod bracer;

pub mod lines;

pub mod escapes;

pub mod module_graph;

pub mod laws;
