pub mod chars;
pub mod curve;
pub mod expr;
pub mod grammar;
pub mod laws;
pub mod lexer;
pub mod lexer_laws;
pub mod operand_laws;
pub mod parser;
pub mod precedence;
pub mod rewrite_laws;
pub mod token;
