use vstd::prelude::*;

use crate::token::Token;

verus! {

/// What a decoding step asked for.
#[derive(Clone, Copy, PartialEq, Eq, Structural, Debug)]
pub enum Expected {
    Integer,
    Bytes,
    List,
    Dict,
    End,
    /// Any value, not a closing `e`.
    Value,
    /// A dictionary or a byte string: how an enum value begins.
    DictOrBytes,
}

/// What a decoding step met instead.
#[derive(Clone, Copy, PartialEq, Eq, Structural, Debug)]
pub enum Found {
    Integer,
    Bytes,
    List,
    Dict,
    End,
}

/// Why a value of the right shape could not be converted.
#[derive(Clone, Copy, PartialEq, Eq, Structural, Debug)]
pub enum Cause {
    /// The integer lies outside the target's range.
    OutOfRange,
    /// The bytes are not UTF-8 text.
    InvalidUtf8,
    /// The bytes are not one ASCII character.
    NotOneChar,
}

/// The one error type of the library; every decoding failure carries the byte
/// offset at which it was detected.
#[derive(Debug)]
pub enum Error {
    /// The input breaks the grammar: an unexpected byte, a malformed integer, a
    /// missing value or the input ending too early.
    BencodeDecode(usize),
    /// A value of another shape stands where the caller asked for one: where
    /// it begins, what was asked for and what was found.
    Mismatch(usize, Expected, Found),
    /// A value of the right shape could not be converted: where it begins, and why.
    Conversion(usize, Cause),
    /// A failure reported by a layer above the decoder (a record schema), with its message.
    SerdeCustom(String),
    /// A failure of the transport that fetched a payload, with its message.
    Request(String),
}

pub type Result<T> = core::result::Result<T, Error>;

/// The kind of token `t`.
pub open spec fn found_of(t: Token) -> Found {
    match t {
        Token::Num(_, _) => Found::Integer,
        Token::String(_, _) => Found::Bytes,
        Token::List => Found::List,
        Token::Dict => Found::Dict,
        Token::End => Found::End,
    }
}

/// The kind of token `t`.
pub fn found(t: Token) -> (r: Found)
    ensures
        r == found_of(t),
{
    match t {
        Token::Num(_, _) => Found::Integer,
        Token::String(_, _) => Found::Bytes,
        Token::List => Found::List,
        Token::Dict => Found::Dict,
        Token::End => Found::End,
    }
}

/// `r` is the error of asking for `want` at `p`, where token `t` stands.
pub open spec fn is_mismatch<T>(r: Result<T>, p: int, want: Expected, t: Token) -> bool {
    r matches Err(Error::Mismatch(x, w, f)) && x == p && w == want && f == found_of(t)
}

/// `r` is the error of converting the value at `p`, for `cause`.
pub open spec fn is_conversion<T>(r: Result<T>, p: int, cause: Cause) -> bool {
    r matches Err(Error::Conversion(x, c)) && x == p && c == cause
}

} // verus!
