//! The tokens of the pattern grammar: one name per byte the scanner
//! dispatches on, with every remaining digit and byte carried through.

use vstd::prelude::*;

verus! {

/// A classified pattern byte.
#[derive(Clone, Copy, Debug, PartialEq, Eq, Structural)]
pub enum Token {
    Alt,
    SetBegin,
    SetEnd,
    BackSlash,
    Star,
    Question,
    Dash,
    Quote,
    Plus,
    Any,
    Comma,
    Equals,
    Colon,
    Not,
    GreaterThan,
    Tick,
    BackTick,
    RepeatBegin,
    RepeatEnd,
    GroupBegin,
    GroupEnd,
    StartAnchor,
    EndAnchor,
    Number(u8),
    Character(u8),
}

/// The token a byte classifies as.
pub open spec fn spec_token_of(b: u8) -> Token {
    if b == 124 {
        Token::Alt
    } else if b == 91 {
        Token::SetBegin
    } else if b == 93 {
        Token::SetEnd
    } else if b == 39 {
        Token::Tick
    } else if b == 42 {
        Token::Star
    } else if b == 92 {
        Token::BackSlash
    } else if b == 63 {
        Token::Question
    } else if b == 45 {
        Token::Dash
    } else if b == 34 {
        Token::Quote
    } else if b == 43 {
        Token::Plus
    } else if b == 46 {
        Token::Any
    } else if b == 44 {
        Token::Comma
    } else if b == 96 {
        Token::BackTick
    } else if b == 123 {
        Token::RepeatBegin
    } else if b == 58 {
        Token::Colon
    } else if b == 61 {
        Token::Equals
    } else if b == 33 {
        Token::Not
    } else if b == 62 {
        Token::GreaterThan
    } else if b == 125 {
        Token::RepeatEnd
    } else if b == 40 {
        Token::GroupBegin
    } else if b == 41 {
        Token::GroupEnd
    } else if b == 94 {
        Token::StartAnchor
    } else if b == 36 {
        Token::EndAnchor
    } else if 48 <= b <= 57 {
        Token::Number(b)
    } else {
        Token::Character(b)
    }
}

/// The byte a token stands for.
pub open spec fn spec_byte_of(t: Token) -> u8 {
    match t {
        Token::Alt => 124,
        Token::SetBegin => 91,
        Token::SetEnd => 93,
        Token::Tick => 39,
        Token::Star => 42,
        Token::BackSlash => 92,
        Token::Question => 63,
        Token::Dash => 45,
        Token::Quote => 34,
        Token::Plus => 43,
        Token::Any => 46,
        Token::Comma => 44,
        Token::BackTick => 96,
        Token::RepeatBegin => 123,
        Token::Colon => 58,
        Token::Equals => 61,
        Token::Not => 33,
        Token::GreaterThan => 62,
        Token::RepeatEnd => 125,
        Token::GroupBegin => 40,
        Token::GroupEnd => 41,
        Token::StartAnchor => 94,
        Token::EndAnchor => 36,
        Token::Number(n) => n,
        Token::Character(ch) => ch,
    }
}

/// Classify one byte.
pub fn char_to_token(ch: &u8) -> (t: Token)
    ensures
        t == spec_token_of(*ch),
{
    let b = *ch;
    if b == 124 {
        Token::Alt
    } else if b == 91 {
        Token::SetBegin
    } else if b == 93 {
        Token::SetEnd
    } else if b == 39 {
        Token::Tick
    } else if b == 42 {
        Token::Star
    } else if b == 92 {
        Token::BackSlash
    } else if b == 63 {
        Token::Question
    } else if b == 45 {
        Token::Dash
    } else if b == 34 {
        Token::Quote
    } else if b == 43 {
        Token::Plus
    } else if b == 46 {
        Token::Any
    } else if b == 44 {
        Token::Comma
    } else if b == 96 {
        Token::BackTick
    } else if b == 123 {
        Token::RepeatBegin
    } else if b == 58 {
        Token::Colon
    } else if b == 61 {
        Token::Equals
    } else if b == 33 {
        Token::Not
    } else if b == 62 {
        Token::GreaterThan
    } else if b == 125 {
        Token::RepeatEnd
    } else if b == 40 {
        Token::GroupBegin
    } else if b == 41 {
        Token::GroupEnd
    } else if b == 94 {
        Token::StartAnchor
    } else if b == 36 {
        Token::EndAnchor
    } else if 48 <= b && b <= 57 {
        Token::Number(b)
    } else {
        Token::Character(b)
    }
}

/// The byte a token stands for.
pub fn token_to_char(token: &Token) -> (b: u8)
    ensures
        b == spec_byte_of(*token),
{
    match *token {
        Token::Alt => 124,
        Token::SetBegin => 91,
        Token::SetEnd => 93,
        Token::Tick => 39,
        Token::Star => 42,
        Token::BackSlash => 92,
        Token::Question => 63,
        Token::Dash => 45,
        Token::Quote => 34,
        Token::Plus => 43,
        Token::Any => 46,
        Token::Comma => 44,
        Token::BackTick => 96,
        Token::RepeatBegin => 123,
        Token::Colon => 58,
        Token::Equals => 61,
        Token::Not => 33,
        Token::GreaterThan => 62,
        Token::RepeatEnd => 125,
        Token::GroupBegin => 40,
        Token::GroupEnd => 41,
        Token::StartAnchor => 94,
        Token::EndAnchor => 36,
        Token::Number(n) => n,
        Token::Character(ch) => ch,
    }
}

/// Classifying a byte and reading the token back returns the byte.
pub proof fn lemma_token_roundtrip(b: u8)
    ensures
        spec_byte_of(spec_token_of(b)) == b,
{
}

} // verus!
