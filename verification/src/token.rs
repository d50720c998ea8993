//! Tokens: the indivisible lexical units that the lexer hands to the parser.

use vstd::prelude::*;

verus! {

/// A lexical unit. Tokens carry no position: their place is their index in
/// the sequence that the lexer produced.
#[derive(PartialEq, Eq, Debug)]
pub enum Token {
    Add,
    Sub,
    Mul,
    Div,
    Mod,
    ParL,
    ParR,
    Assign,
    Semicolon,
    Num(usize),
    Id(String),
    Eof,
}

/// The mathematical value of a [`Token`]: an identifier is the sequence of
/// its characters.
pub enum SpecToken {
    Add,
    Sub,
    Mul,
    Div,
    Mod,
    ParL,
    ParR,
    Assign,
    Semicolon,
    Num(usize),
    Id(Seq<char>),
    Eof,
}

impl View for Token {
    type V = SpecToken;

    open spec fn view(&self) -> SpecToken {
        match self {
            Token::Add => SpecToken::Add,
            Token::Sub => SpecToken::Sub,
            Token::Mul => SpecToken::Mul,
            Token::Div => SpecToken::Div,
            Token::Mod => SpecToken::Mod,
            Token::ParL => SpecToken::ParL,
            Token::ParR => SpecToken::ParR,
            Token::Assign => SpecToken::Assign,
            Token::Semicolon => SpecToken::Semicolon,
            Token::Num(n) => SpecToken::Num(*n),
            Token::Id(s) => SpecToken::Id(s@),
            Token::Eof => SpecToken::Eof,
        }
    }
}

impl Clone for Token {
    fn clone(&self) -> (r: Token)
        ensures
            r@ == self@,
    {
        match self {
            Token::Add => Token::Add,
            Token::Sub => Token::Sub,
            Token::Mul => Token::Mul,
            Token::Div => Token::Div,
            Token::Mod => Token::Mod,
            Token::ParL => Token::ParL,
            Token::ParR => Token::ParR,
            Token::Assign => Token::Assign,
            Token::Semicolon => Token::Semicolon,
            Token::Num(n) => Token::Num(*n),
            Token::Id(s) => Token::Id(s.clone()),
            Token::Eof => Token::Eof,
        }
    }
}

/// The values of a sequence of tokens, in order.
pub open spec fn token_values(toks: Seq<Token>) -> Seq<SpecToken> {
    Seq::new(toks.len(), |i: int| toks[i]@)
}

/// The token under the cursor: past the last token the input has ended, which
/// reads as `Eof`.
pub open spec fn token_at(ts: Seq<SpecToken>, i: int) -> SpecToken {
    if 0 <= i < ts.len() {
        ts[i]
    } else {
        SpecToken::Eof
    }
}

} // verus!
