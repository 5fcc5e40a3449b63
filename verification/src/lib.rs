//! A small compiler front end for the Ket language: arenas, lexer, parser,
//! name resolution and type checking.
use vstd::prelude::*;

pub mod arena;
pub mod compiler;
pub mod ast;
pub mod error;
pub mod file;
pub mod grammar;
pub mod lexer;
pub mod lsp;
pub mod parser;
pub mod prelude;
pub mod report;
pub mod resolve;
pub mod symb;
pub mod text;
pub mod types;
