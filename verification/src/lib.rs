//! An untyped lambda calculus with 64-bit unsigned integers: source text is
//! lexed, parsed into a named syntax tree, lowered to de Bruijn indices and
//! evaluated, either by direct recursion or by an abstract machine.
pub mod arena;
pub mod de_bruijn;
pub mod errors;
pub mod eval;
pub mod generate;
pub mod lexer;
pub mod parser;
pub mod pretty;
pub mod span;
pub mod syntax;
pub mod text;
