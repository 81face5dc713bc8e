//! The eight instructions and the characters that denote them.

use vstd::prelude::*;

verus! {

/// One instruction of the language.
#[derive(Clone, Copy, Debug, PartialEq, Eq, Structural)]
pub enum Token {
    /// `>`: move the data pointer one cell to the right.
    IncPointer,
    /// `<`: move the data pointer one cell to the left.
    DecPointer,
    /// `+`: add one to the current cell, wrapping from 255 to 0.
    Increment,
    /// `-`: subtract one from the current cell, wrapping from 0 to 255.
    Decrement,
    /// `.`: write the current cell to the output.
    Output,
    /// `,`: read one byte of input into the current cell.
    Input,
    /// `[`: skip past the matching `]` when the current cell is zero.
    SquareOpen,
    /// `]`: go back to the matching `[` when the current cell is not zero.
    SquareClose,
}

/// The instruction that a character denotes, if it denotes one.
pub open spec fn token_of(c: char) -> Option<Token> {
    if c == '>' {
        Some(Token::IncPointer)
    } else if c == '<' {
        Some(Token::DecPointer)
    } else if c == '+' {
        Some(Token::Increment)
    } else if c == '-' {
        Some(Token::Decrement)
    } else if c == '.' {
        Some(Token::Output)
    } else if c == ',' {
        Some(Token::Input)
    } else if c == '[' {
        Some(Token::SquareOpen)
    } else if c == ']' {
        Some(Token::SquareClose)
    } else {
        None
    }
}

/// Whether a character is white space: one of the code points that Unicode
/// lists as `White_Space`. Space, tab, carriage return and line feed are among
/// them.
pub open spec fn blank(c: char) -> bool {
    let n = c as u32;
    ||| 0x09 <= n <= 0x0D
    ||| n == 0x20
    ||| n == 0x85
    ||| n == 0xA0
    ||| n == 0x1680
    ||| 0x2000 <= n <= 0x200A
    ||| n == 0x2028
    ||| n == 0x2029
    ||| n == 0x202F
    ||| n == 0x205F
    ||| n == 0x3000
}

/// Whether a character may stand in a program: it denotes an instruction or is
/// white space.
pub open spec fn recognized(c: char) -> bool {
    token_of(c) is Some || blank(c)
}

impl Token {
    /// The instruction that `c` denotes, or `None` for any other character.
    pub fn from_char(c: char) -> (t: Option<Token>)
        ensures
            t == token_of(c),
    {
        match c {
            '>' => Some(Token::IncPointer),
            '<' => Some(Token::DecPointer),
            '+' => Some(Token::Increment),
            '-' => Some(Token::Decrement),
            '.' => Some(Token::Output),
            ',' => Some(Token::Input),
            '[' => Some(Token::SquareOpen),
            ']' => Some(Token::SquareClose),
            _ => None,
        }
    }
}

/// Whether `c` is white space.
pub fn is_blank(c: char) -> (b: bool)
    ensures
        b == blank(c),
{
    let n: u32 = c as u32;
    (0x09 <= n && n <= 0x0D) || n == 0x20 || n == 0x85 || n == 0xA0 || n == 0x1680 || (0x2000 <= n
        && n <= 0x200A) || n == 0x2028 || n == 0x2029 || n == 0x202F || n == 0x205F || n == 0x3000
}

} // verus!
