//! Dice notation: lexing, parsing, rendering and evaluation of expressions
//! such as `-d40+2d4+1-3-1d6+3d1`.
pub mod digits;
pub mod eval;
pub mod laws;
pub mod lexer;
pub mod parser;

pub use eval::RollResult;
pub use lexer::{d, eof, lex, minus, number, plus, LexErr, Token, TokenKind};
pub use parser::{parse, Expr, Node, RootNode};
