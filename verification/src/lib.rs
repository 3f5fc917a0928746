//! A minimal embedded SQL engine: a tokenizer, a recursive-descent parser for
//! `CREATE TABLE`, `INSERT INTO` and `SELECT`, and an in-memory table store.
pub mod ast;
pub mod lexer;
pub mod mem_backend;
pub mod parser;
pub mod separators;
