pub mod text;
pub mod names;
pub mod locations;
pub mod lexer;
pub mod simple_lexer;
pub mod error_meta;
pub mod error;
pub mod parser;
pub mod interpreter;
pub mod language_server;
pub mod scratch;
