//! The tokens of the source language and their mathematical view.

use vstd::prelude::*;

verus! {

/// A token of the source language. Tokens carry no source position.
#[derive(Debug, Clone)]
pub enum Token {
    /// Stands in for a token where a lexing function found none.
    NotToken,
    // arithmetic and assignment
    Plus,
    Subtract,
    Multiply,
    Divide,
    Modulus,
    Assign,
    /// An integer literal.
    Num(i32),
    /// An identifier that is not a keyword.
    Ident(String),
    // keywords
    If,
    While,
    Read,
    Func,
    Return,
    Int,
    Print,
    Else,
    Break,
    Continue,
    // punctuation
    LeftParen,
    RightParen,
    LeftCurly,
    RightCurly,
    LeftBracket,
    RightBracket,
    Comma,
    Semicolon,
    // comparisons
    Less,
    LessEqual,
    Greater,
    GreaterEqual,
    Equality,
    NotEqual,
}

/// What a [`Token`] stands for in specifications: the same variants, with an
/// identifier held as its sequence of characters and a literal as an integer.
pub enum TokenView {
    NotToken,
    Plus,
    Subtract,
    Multiply,
    Divide,
    Modulus,
    Assign,
    Num(int),
    Ident(Seq<char>),
    If,
    While,
    Read,
    Func,
    Return,
    Int,
    Print,
    Else,
    Break,
    Continue,
    LeftParen,
    RightParen,
    LeftCurly,
    RightCurly,
    LeftBracket,
    RightBracket,
    Comma,
    Semicolon,
    Less,
    LessEqual,
    Greater,
    GreaterEqual,
    Equality,
    NotEqual,
}

impl View for Token {
    type V = TokenView;

    open spec fn view(&self) -> TokenView {
        match self {
            Token::NotToken => TokenView::NotToken,
            Token::Plus => TokenView::Plus,
            Token::Subtract => TokenView::Subtract,
            Token::Multiply => TokenView::Multiply,
            Token::Divide => TokenView::Divide,
            Token::Modulus => TokenView::Modulus,
            Token::Assign => TokenView::Assign,
            Token::Num(n) => TokenView::Num(*n as int),
            Token::Ident(name) => TokenView::Ident(name@),
            Token::If => TokenView::If,
            Token::While => TokenView::While,
            Token::Read => TokenView::Read,
            Token::Func => TokenView::Func,
            Token::Return => TokenView::Return,
            Token::Int => TokenView::Int,
            Token::Print => TokenView::Print,
            Token::Else => TokenView::Else,
            Token::Break => TokenView::Break,
            Token::Continue => TokenView::Continue,
            Token::LeftParen => TokenView::LeftParen,
            Token::RightParen => TokenView::RightParen,
            Token::LeftCurly => TokenView::LeftCurly,
            Token::RightCurly => TokenView::RightCurly,
            Token::LeftBracket => TokenView::LeftBracket,
            Token::RightBracket => TokenView::RightBracket,
            Token::Comma => TokenView::Comma,
            Token::Semicolon => TokenView::Semicolon,
            Token::Less => TokenView::Less,
            Token::LessEqual => TokenView::LessEqual,
            Token::Greater => TokenView::Greater,
            Token::GreaterEqual => TokenView::GreaterEqual,
            Token::Equality => TokenView::Equality,
            Token::NotEqual => TokenView::NotEqual,
        }
    }
}

/// The views of a sequence of tokens, in order.
pub open spec fn token_views(tokens: Seq<Token>) -> Seq<TokenView> {
    Seq::new(tokens.len(), |i: int| tokens[i]@)
}

/// Pushing a token onto a vector pushes its view onto the vector's views.
pub proof fn lemma_token_views_push(tokens: Seq<Token>, token: Token)
    ensures
        token_views(tokens.push(token)) == token_views(tokens).push(token@),
{
    assert(token_views(tokens.push(token)) =~= token_views(tokens).push(token@));
}

} // verus!
