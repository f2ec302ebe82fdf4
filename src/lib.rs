//! A scanner, parser and tree-walking evaluator for a small dynamically typed
//! scripting language, with contracts proved by Verus.

pub mod natural;
pub mod number;
pub mod text;
pub mod token;
pub mod tokenizer_error;
pub mod tokenizer;
pub mod parser;
pub mod ast_printer;
pub mod object;
pub mod runtime_error;
pub mod environment;
pub mod interpreter;
pub mod scanner;
