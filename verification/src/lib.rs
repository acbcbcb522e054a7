//! A compiler and an interpreter for a small imperative language with
//! integers, arrays of a fixed size, functions, conditionals and loops.
//!
//! Source text is scanned into tokens ([`scanner`]), the tokens are parsed
//! and lowered in one pass to a line-oriented intermediate representation
//! ([`parser`], specified by [`grammar`] over the instructions of [`ir`]),
//! and the text of that representation is read ([`loader`]) and executed
//! ([`machine`], [`runner`]); [`compiler`] holds both halves as one
//! function each. The modules [`laws`], [`contract`], [`kinds`],
//! [`progress`] and [`printing`] hold what is proved of the whole: that the
//! names the parser makes are unique, that every jump has its label, that
//! code uses only what is declared, that the text the parser writes is read
//! back as the same program, and that such a program never fails for a
//! missing label or function, nor for an array taken for an integer.

pub mod compiler;
pub mod contract;
pub mod format;
pub mod grammar;
pub mod ir;
pub mod kinds;
pub mod laws;
pub mod loader;
pub mod machine;
pub mod parser;
pub mod printing;
pub mod program;
pub mod progress;
pub mod runner;
pub mod scanner;
pub mod sound;
pub mod text;
pub mod token;

pub use compiler::compile;
pub use compiler::interpret;
pub use parser::parse_program;
pub use runner::execute_ir;
pub use scanner::lex;
pub use token::Token;
