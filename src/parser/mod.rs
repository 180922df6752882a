pub mod grammar;
pub mod lexer;
pub mod stream;
pub mod types;
