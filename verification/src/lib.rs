//! A Jsonnet front end: lexical analysis, name resolution, bytecode chunks,
//! string interning, coverage bookkeeping and the text side of the standard
//! library, with their behaviour stated as Verus contracts.

pub mod chunk;
pub mod text;
pub mod lexical;
pub mod scanner;
pub mod text_block;
pub mod coverage;
pub mod string_pool;
pub mod native;
pub mod parser;
pub mod lcov;
pub mod serialized;
pub mod scopes;
pub mod string_natives;
pub mod int_format;
pub mod format_spec;
pub mod compile_errors;
pub mod disassembly;
pub mod manifest;
pub mod memory_manager;
pub mod heap_natives;
pub mod formatting;
pub mod compiler;
