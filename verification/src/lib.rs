//! A small toolchain for the Juan scripting language: spans, a lexer, an
//! expression parser that builds an arena syntax tree, a bytecode compiler and
//! a stack virtual machine, each with a machine-checked contract.

pub mod span;
pub mod bytecode;
pub mod value;
pub mod chunk_table;
pub mod vm;
pub mod ast;
pub mod semantics;
pub mod compiler;
pub mod tokens;
pub mod text;
pub mod lexer;
pub mod parser_spec;
pub mod parser;
pub mod parser_laws;
