//! The tokens of the source language.

use crate::text::is_name;
use vstd::prelude::*;

verus! {

/// A lexical unit of the source language.
#[derive(Debug, Clone)]
pub enum Token {
    NotToken,
    Plus,
    Subtract,
    Multiply,
    Divide,
    Modulus,
    Assign,
    Num(i32),
    Ident(String),
    If,
    While,
    Read,
    Func,
    Return,
    Int,
    Print,
    Else,
    Break,
    Continue,
    LeftParen,
    RightParen,
    LeftCurly,
    RightCurly,
    LeftBracket,
    RightBracket,
    Comma,
    Semicolon,
    Less,
    LessEqual,
    Greater,
    GreaterEqual,
    Equality,
    NotEqual,
}

/// The mathematical value of a [`Token`]: the same cases, with an
/// identifier's name as a sequence of characters.
pub ghost enum TokenView {
    NotToken,
    Plus,
    Subtract,
    Multiply,
    Divide,
    Modulus,
    Assign,
    Num(i32),
    Ident(Seq<char>),
    If,
    While,
    Read,
    Func,
    Return,
    Int,
    Print,
    Else,
    Break,
    Continue,
    LeftParen,
    RightParen,
    LeftCurly,
    RightCurly,
    LeftBracket,
    RightBracket,
    Comma,
    Semicolon,
    Less,
    LessEqual,
    Greater,
    GreaterEqual,
    Equality,
    NotEqual,
}

impl View for Token {
    type V = TokenView;

    open spec fn view(&self) -> TokenView {
        match self {
            Token::NotToken => TokenView::NotToken,
            Token::Plus => TokenView::Plus,
            Token::Subtract => TokenView::Subtract,
            Token::Multiply => TokenView::Multiply,
            Token::Divide => TokenView::Divide,
            Token::Modulus => TokenView::Modulus,
            Token::Assign => TokenView::Assign,
            Token::Num(n) => TokenView::Num(*n),
            Token::Ident(name) => TokenView::Ident(name@),
            Token::If => TokenView::If,
            Token::While => TokenView::While,
            Token::Read => TokenView::Read,
            Token::Func => TokenView::Func,
            Token::Return => TokenView::Return,
            Token::Int => TokenView::Int,
            Token::Print => TokenView::Print,
            Token::Else => TokenView::Else,
            Token::Break => TokenView::Break,
            Token::Continue => TokenView::Continue,
            Token::LeftParen => TokenView::LeftParen,
            Token::RightParen => TokenView::RightParen,
            Token::LeftCurly => TokenView::LeftCurly,
            Token::RightCurly => TokenView::RightCurly,
            Token::LeftBracket => TokenView::LeftBracket,
            Token::RightBracket => TokenView::RightBracket,
            Token::Comma => TokenView::Comma,
            Token::Semicolon => TokenView::Semicolon,
            Token::Less => TokenView::Less,
            Token::LessEqual => TokenView::LessEqual,
            Token::Greater => TokenView::Greater,
            Token::GreaterEqual => TokenView::GreaterEqual,
            Token::Equality => TokenView::Equality,
            Token::NotEqual => TokenView::NotEqual,
        }
    }
}

/// The values of a token sequence, position by position.
pub open spec fn token_views(tokens: Seq<Token>) -> Seq<TokenView> {
    Seq::new(tokens.len(), |i: int| tokens[i]@)
}

/// Whether every identifier among the tokens is a name, as every
/// identifier that the scanner finds is.
pub open spec fn identifiers_are_names(tokens: Seq<TokenView>) -> bool {
    forall|k: int|
        0 <= k < tokens.len() ==> (#[trigger] tokens[k] matches TokenView::Ident(name) ==> is_name(
            name,
        ))
}

} // verus!
