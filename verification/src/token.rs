//! The tokens of the surface syntax.
use crate::table::Replicate;
use vstd::prelude::*;

verus! {

/// A token.
#[derive(Debug, PartialEq, Clone)]
pub enum Token {
    NumericLiteral(i64),
    Identifier(String),
    Box,
    Ref,
    Deref,
    Let,
    Mut,
    Assign,
    Fn,
    LParen,
    RParen,
    LCurl,
    RCurl,
    Comma,
    Colon,
    EOF,
}

/// The model of a `Token`.
pub enum Tok {
    NumericLiteral(i64),
    Identifier(Seq<char>),
    Box,
    Ref,
    Deref,
    Let,
    Mut,
    Assign,
    Fn,
    LParen,
    RParen,
    LCurl,
    RCurl,
    Comma,
    Colon,
    EOF,
}

impl View for Token {
    type V = Tok;

    open spec fn view(&self) -> Tok {
        match self {
            Token::NumericLiteral(n) => Tok::NumericLiteral(*n),
            Token::Identifier(s) => Tok::Identifier(s@),
            Token::Box => Tok::Box,
            Token::Ref => Tok::Ref,
            Token::Deref => Tok::Deref,
            Token::Let => Tok::Let,
            Token::Mut => Tok::Mut,
            Token::Assign => Tok::Assign,
            Token::Fn => Tok::Fn,
            Token::LParen => Tok::LParen,
            Token::RParen => Tok::RParen,
            Token::LCurl => Tok::LCurl,
            Token::RCurl => Tok::RCurl,
            Token::Comma => Tok::Comma,
            Token::Colon => Tok::Colon,
            Token::EOF => Tok::EOF,
        }
    }
}

impl Replicate for Token {
    fn replicate(&self) -> (r: Token) {
        match self {
            Token::NumericLiteral(n) => Token::NumericLiteral(*n),
            Token::Identifier(s) => Token::Identifier(s.clone()),
            Token::Box => Token::Box,
            Token::Ref => Token::Ref,
            Token::Deref => Token::Deref,
            Token::Let => Token::Let,
            Token::Mut => Token::Mut,
            Token::Assign => Token::Assign,
            Token::Fn => Token::Fn,
            Token::LParen => Token::LParen,
            Token::RParen => Token::RParen,
            Token::LCurl => Token::LCurl,
            Token::RCurl => Token::RCurl,
            Token::Comma => Token::Comma,
            Token::Colon => Token::Colon,
            Token::EOF => Token::EOF,
        }
    }
}

} // verus!
