//! Byte classification helpers: the vocabulary the scanner dispatches on.

use vstd::prelude::*;

verus! {

// The byte values the grammar dispatches on, by name.
pub const CARET: u8 = 94;
pub const DOLLAR: u8 = 36;
pub const BACKSLASH: u8 = 92;
pub const LBRACKET: u8 = 91;
pub const RBRACKET: u8 = 93;
pub const LPAREN: u8 = 40;
pub const RPAREN: u8 = 41;
pub const PIPE: u8 = 124;
pub const LBRACE: u8 = 123;
pub const RBRACE: u8 = 125;
pub const DASH: u8 = 45;
pub const DOT: u8 = 46;
pub const QUESTION: u8 = 63;
pub const STAR: u8 = 42;
pub const PLUS: u8 = 43;
pub const COMMA: u8 = 44;
pub const COLON: u8 = 58;
pub const EQUALS: u8 = 61;
pub const BANG: u8 = 33;
pub const GREATER: u8 = 62;
pub const DIGIT_ZERO: u8 = 48;
pub const DIGIT_ONE: u8 = 49;
pub const DIGIT_NINE: u8 = 57;

/// Does this byte open a start anchor?
pub fn is_begin(ch: &u8) -> (r: bool)
    ensures
        r == (*ch == 94),
{
    *ch == CARET
}

/// Is this byte one of the single-byte repetition suffixes `?`, `+`, `*`?
pub fn is_repeat(ch: &u8) -> (r: bool)
    ensures
        r == (*ch == 63 || *ch == 43 || *ch == 42),
{
    *ch == QUESTION || *ch == PLUS || *ch == STAR
}

/// Does this byte mark an end anchor?
pub fn is_end(ch: &u8) -> (r: bool)
    ensures
        r == (*ch == 36),
{
    *ch == DOLLAR
}

/// Is this byte a backslash, the escape introducer?
pub fn is_slash(ch: &u8) -> (r: bool)
    ensures
        r == (*ch == 92),
{
    *ch == BACKSLASH
}

/// Does this byte open a character class?
pub fn is_set_begin(ch: &u8) -> (r: bool)
    ensures
        r == (*ch == 91),
{
    *ch == LBRACKET
}

/// Does this byte close a character class?
pub fn is_set_end(ch: &u8) -> (r: bool)
    ensures
        r == (*ch == 93),
{
    *ch == RBRACKET
}

/// Does this byte open a group?
pub fn is_group_begin(ch: &u8) -> (r: bool)
    ensures
        r == (*ch == 40),
{
    *ch == LPAREN
}

/// Does this byte close a group?
pub fn is_group_end(ch: &u8) -> (r: bool)
    ensures
        r == (*ch == 41),
{
    *ch == RPAREN
}

/// Is this byte the alternation separator?
pub fn is_select(ch: &u8) -> (r: bool)
    ensures
        r == (*ch == 124),
{
    *ch == PIPE
}

/// Does this byte open a brace quantifier?
pub fn is_repeat_begin(ch: &u8) -> (r: bool)
    ensures
        r == (*ch == 123),
{
    *ch == LBRACE
}

/// Does this byte close a brace quantifier?
pub fn is_repeat_end(ch: &u8) -> (r: bool)
    ensures
        r == (*ch == 125),
{
    *ch == RBRACE
}

/// Is this byte one that closes a construct opened earlier?
pub fn is_needend(ch: &u8) -> (r: bool)
    ensures
        r == (*ch == 41 || *ch == 125),
{
    is_group_end(ch) || is_repeat_end(ch)
}

/// Is this byte an ASCII decimal digit?
pub fn is_digit(ch: &u8) -> (r: bool)
    ensures
        r == (48 <= *ch && *ch <= 57),
{
    DIGIT_ZERO <= *ch && *ch <= DIGIT_NINE
}

/// The numeric value of an ASCII decimal digit byte.
pub fn trans_digit(ch: &u8) -> (r: u8)
    requires
        48 <= *ch <= 57,
    ensures
        r == *ch - 48,
{
    *ch - DIGIT_ZERO
}

/// Is this byte the range dash of a character class?
pub fn is_dash(ch: &u8) -> (r: bool)
    ensures
        r == (*ch == 45),
{
    *ch == DASH
}

/// Is this byte the match-anything dot?
pub fn is_any(ch: &u8) -> (r: bool)
    ensures
        r == (*ch == 46),
{
    *ch == DOT
}

/// The escape-table translation of the byte after a backslash:
/// `n`, `r` and `t` name control characters; every other byte stands for
/// itself.
pub fn trans_slash(ch: &u8) -> (r: u8)
    ensures
        r == crate::escape::escape_literal(*ch),
{
    match *ch {
        110u8 => 10,
        114u8 => 13,
        116u8 => 9,
        _ => *ch,
    }
}

/// Is this byte one that, after `?`, selects a group marker?  Returns the
/// byte itself if so and 0 otherwise.
pub fn is_subexp_mark_ch(ch: &u8) -> (r: u8)
    ensures
        r == (if *ch == 58 || *ch == 61 || *ch == 33 || *ch == 62 {
            *ch
        } else {
            0u8
        }),
{
    if *ch == COLON || *ch == EQUALS || *ch == BANG || *ch == GREATER {
        *ch
    } else {
        0
    }
}

/// Does this byte slice begin with a two-byte group-marker prefix?
/// Returns the marker byte (`:`, `=`, `!` or `>`) if so and 0 otherwise.
pub fn is_subexp_mark(ch: &[u8]) -> (r: u8)
    ensures
        r == (if ch@.len() >= 2 && ch@[0] == 63 {
            if ch@[1] == 58 || ch@[1] == 61 || ch@[1] == 33 || ch@[1] == 62 {
                ch@[1]
            } else {
                0u8
            }
        } else {
            0u8
        }),
{
    if ch.len() >= 2 && ch[0] == QUESTION {
        is_subexp_mark_ch(&ch[1])
    } else {
        0
    }
}

} // verus!
