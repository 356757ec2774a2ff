pub mod emitter;
pub mod lexer;
pub mod parser;
pub mod text;
pub mod tokens;
