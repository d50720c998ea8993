//! A small ahead-of-time compiler from arithmetic statements to x86-64
//! assembly: a lexer, a recursive-descent parser and a stack-machine code
//! generator, each with its mathematical description.

pub mod ast;
pub mod codegen;
pub mod compiler;
pub mod lexer;
pub mod machine;
pub mod parser;
pub mod printer;
pub mod text;
pub mod token;
