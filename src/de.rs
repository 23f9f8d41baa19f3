//! The steps of a type-directed decoder: each reads the value that a target
//! of one shape needs, and fails when the next value has another shape.
use vstd::prelude::*;
use vstd::string::StringSliceAdditionalSpecFns;
use vstd::utf8::valid_utf8;

use crate::error::{found, is_conversion, is_mismatch, Cause, Error, Expected, Found, Result};
use crate::grammar::{
    digits_value, int_value, is_digit, is_int_body, is_nat_text, lemma_digits_value_nonneg,
    lemma_digits_value_prefix, lemma_scan_advances, MINUS, ZERO,
};
use crate::parser::{after_step, lemma_step_wf, peek, step, BencodeParser, ParserState};
use crate::text::utf8_text;
use crate::token::Token;

verus! {

/// The shape of the next value, as a decoder that takes any value sees it.
#[derive(Clone, Copy, PartialEq, Eq, Structural, Debug)]
pub enum Shape {
    Dict,
    List,
    Integer,
    Bytes,
}

/// How an enum value begins: a dictionary whose one key names the variant
/// and whose value is its payload, or a bare name for a variant without one.
#[derive(Debug)]
pub enum EnumStart<'de> {
    Tagged,
    Unit(&'de str),
}

/// What reading an integer in `[min, max]` from state `s` gives.
pub open spec fn int_read_is(r: Result<i128>, s: ParserState, min: int, max: int) -> bool {
    match step(s) {
        Err(e) => r matches Err(Error::BencodeDecode(x)) && x == e,
        Ok((t, p, _)) => match t {
            Token::Num(a, b) => {
                let v = int_value(s.data.subrange(a as int, b as int));
                if min <= v <= max {
                    r == Ok::<i128, Error>(v as i128)
                } else {
                    is_conversion(r, p, Cause::OutOfRange)
                }
            },
            _ => is_mismatch(r, p, Expected::Integer, t),
        },
    }
}

/// What reading a byte string from state `s` gives: the span of its bytes.
pub open spec fn bytes_read_is(r: core::result::Result<(int, int), Error>, s: ParserState) -> bool {
    match step(s) {
        Err(e) => r matches Err(Error::BencodeDecode(x)) && x == e,
        Ok((t, p, _)) => match t {
            Token::String(a, b) => r == Ok::<(int, int), Error>((a as int, b as int)),
            _ => is_mismatch(r, p, Expected::Bytes, t),
        },
    }
}

impl<'de> BencodeParser<'de> {
    /// The value of the integer text in `[start, end)`, if it fits in `i128`.
    fn int_value_at(&self, start: usize, end: usize) -> (r: Option<i128>)
        requires
            self.wf(),
            start <= end <= self@.data.len(),
            is_int_body(self@.data.subrange(start as int, end as int)),
        ensures
            ({
                let v = int_value(self@.data.subrange(start as int, end as int));
                if i128::MIN <= v <= i128::MAX {
                    r == Some(v as i128)
                } else {
                    r is None
                }
            }),
    {
        let ghost text = self@.data.subrange(start as int, end as int);
        let data = self.bytes_at(start, end);
        let negative = data[0] == MINUS;
        let first: usize = if negative {
            1
        } else {
            0
        };
        let ghost digits = text.subrange(first as int, text.len() as int);
        proof {
            if negative {
                assert(!is_nat_text(text));
                assert(digits =~= text.drop_first());
            } else {
                assert(digits =~= text);
            }
            assert(is_nat_text(digits));
            assert(text.subrange(first as int, first as int) =~= Seq::<u8>::empty());
        }
        let mut value: i128 = 0;
        let mut i = first;
        while i < data.len()
            invariant
                data@ == text,
                text == self@.data.subrange(start as int, end as int),
                text.len() > 0,
                negative == (text[0] == MINUS),
                negative ==> first == 1,
                !negative ==> first == 0,
                first <= i <= data@.len(),
                digits == text.subrange(first as int, text.len() as int),
                is_nat_text(digits),
                negative ==> value == -digits_value(text.subrange(first as int, i as int)),
                !negative ==> value == digits_value(text.subrange(first as int, i as int)),
            decreases data@.len() - i,
        {
            let ghost before = text.subrange(first as int, i as int);
            let ghost after = text.subrange(first as int, i + 1);
            assert(after.drop_last() =~= before);
            assert(after =~= digits.subrange(0, i - first + 1));
            assert(text[i as int] == digits[i - first]);
            assert(is_digit(digits[i - first]));
            assert(after.last() == text[i as int]);
            assert(digits_value(after) == digits_value(before) * 10 + (text[i as int] - ZERO));
            let digit = (data[i] - ZERO) as i128;
            let next = match value.checked_mul(10) {
                Some(tens) => if negative {
                    tens.checked_sub(digit)
                } else {
                    tens.checked_add(digit)
                },
                None => None,
            };
            match next {
                Some(n) => {
                    value = n;
                },
                None => {
                    proof {
                        assert(before =~= digits.subrange(0, i - first));
                        assert forall|j: int| 0 <= j < before.len() implies is_digit(#[trigger] before[j]) by {
                            assert(before[j] == digits[j]);
                        }
                        lemma_digits_value_nonneg(before);
                        lemma_digits_value_prefix(digits, i - first + 1);
                        assert(digits =~= text.subrange(first as int, text.len() as int));
                        if negative {
                            assert(digits =~= text.drop_first());
                            assert(int_value(text) == -digits_value(text.drop_first()));
                            assert(int_value(text) < i128::MIN);
                        } else {
                            assert(digits =~= text);
                            assert(int_value(text) > i128::MAX);
                        }
                    }
                    return None;
                },
            }
            i = i + 1;
        }
        proof {
            assert(text.subrange(first as int, text.len() as int) =~= digits);
            if negative {
                assert(digits =~= text.drop_first());
            }
        }
        Some(value)
    }

    /// Reads an integer that must lie in `[min, max]`: the target's range.
    pub fn decode_integer(&mut self, min: i128, max: i128) -> (r: Result<i128>)
        requires
            old(self).wf(),
        ensures
            final(self).wf(),
            final(self)@.data == old(self)@.data,
            final(self)@.offset >= old(self)@.offset,
            int_read_is(r, old(self)@, min as int, max as int),
            r is Ok ==> final(self)@ == after_step(old(self)@),
    {
        proof {
            lemma_step_wf(self@);
            if let Ok((t, p, next)) = step(self@) {
                lemma_scan_advances(self@.data, p);
            }
        }
        let position = self.position();
        match self.next_token()? {
            Token::Num(a, b) => match self.int_value_at(a, b) {
                Some(v) => {
                    if min <= v && v <= max {
                        Ok(v)
                    } else {
                        Err(Error::Conversion(position, Cause::OutOfRange))
                    }
                },
                None => Err(Error::Conversion(position, Cause::OutOfRange)),
            },
            other => Err(Error::Mismatch(position, Expected::Integer, found(other))),
        }
    }

    /// Reads an integer as its text, for a target that converts it itself.
    pub fn decode_int_text(&mut self) -> (r: Result<&'de str>)
        requires
            old(self).wf(),
        ensures
            final(self).wf(),
            final(self)@.data == old(self)@.data,
            final(self)@.offset >= old(self)@.offset,
            match step(old(self)@) {
                Err(e) => r matches Err(Error::BencodeDecode(x)) && x == e,
                Ok((t, p, next)) => match t {
                    Token::Num(a, b) => r matches Ok(v) && v.spec_bytes() == old(self)@.data.subrange(
                        a as int,
                        b as int,
                    ) && final(self)@ == next,
                    _ => is_mismatch(r, p, Expected::Integer, t),
                },
            },
    {
        proof {
            lemma_step_wf(self@);
            if let Ok((t, p, next)) = step(self@) {
                lemma_scan_advances(self@.data, p);
            }
        }
        let position = self.position();
        match self.next_token()? {
            Token::Num(a, b) => Ok(self.int_text_at(a, b)),
            other => Err(Error::Mismatch(position, Expected::Integer, found(other))),
        }
    }

    /// Reads a flag, written as an integer: true exactly when it is positive.
    pub fn decode_bool(&mut self) -> (r: Result<bool>)
        requires
            old(self).wf(),
        ensures
            final(self).wf(),
            final(self)@.data == old(self)@.data,
            final(self)@.offset >= old(self)@.offset,
            match step(old(self)@) {
                Err(e) => r matches Err(Error::BencodeDecode(x)) && x == e,
                Ok((t, p, next)) => match t {
                    Token::Num(a, b) => {
                        let v = int_value(old(self)@.data.subrange(a as int, b as int));
                        if i64::MIN <= v <= i64::MAX {
                            r == Ok::<bool, Error>(v > 0) && final(self)@ == next
                        } else {
                            is_conversion(r, p, Cause::OutOfRange)
                        }
                    },
                    _ => is_mismatch(r, p, Expected::Integer, t),
                },
            },
    {
        let v = self.decode_integer(i64::MIN as i128, i64::MAX as i128)?;
        Ok(v > 0)
    }

    /// Reads a byte string: the span of its bytes.
    fn take_byte_string(&mut self) -> (r: Result<(usize, usize)>)
        requires
            old(self).wf(),
        ensures
            final(self).wf(),
            final(self)@.data == old(self)@.data,
            final(self)@.offset >= old(self)@.offset,
            bytes_read_is(
                match r {
                    Ok((a, b)) => Ok((a as int, b as int)),
                    Err(e) => Err(e),
                },
                old(self)@,
            ),
            r matches Ok((a, b)) ==> a <= b <= old(self)@.data.len() && final(self)@ == after_step(
                old(self)@,
            ),
    {
        proof {
            lemma_step_wf(self@);
        }
        let position = self.position();
        match self.next_token()? {
            Token::String(a, b) => Ok((a, b)),
            other => Err(Error::Mismatch(position, Expected::Bytes, found(other))),
        }
    }

    /// Reads a byte string: its bytes, as they stand in the input.
    pub fn decode_bytes(&mut self) -> (r: Result<&'de [u8]>)
        requires
            old(self).wf(),
        ensures
            final(self).wf(),
            final(self)@.data == old(self)@.data,
            final(self)@.offset >= old(self)@.offset,
            match step(old(self)@) {
                Err(e) => r matches Err(Error::BencodeDecode(x)) && x == e,
                Ok((t, p, next)) => match t {
                    Token::String(a, b) => r matches Ok(v) && v@ == old(self)@.data.subrange(
                        a as int,
                        b as int,
                    ) && final(self)@ == next,
                    _ => is_mismatch(r, p, Expected::Bytes, t),
                },
            },
    {
        let (a, b) = self.take_byte_string()?;
        Ok(self.bytes_at(a, b))
    }

    /// Reads a byte string that must be UTF-8 text.
    pub fn decode_str(&mut self) -> (r: Result<&'de str>)
        requires
            old(self).wf(),
        ensures
            final(self).wf(),
            final(self)@.data == old(self)@.data,
            final(self)@.offset >= old(self)@.offset,
            match step(old(self)@) {
                Err(e) => r matches Err(Error::BencodeDecode(x)) && x == e,
                Ok((t, p, next)) => match t {
                    Token::String(a, b) => {
                        let bytes = old(self)@.data.subrange(a as int, b as int);
                        if valid_utf8(bytes) {
                            r matches Ok(v) && v.spec_bytes() == bytes && final(self)@ == next
                        } else {
                            is_conversion(r, p, Cause::InvalidUtf8)
                        }
                    },
                    _ => is_mismatch(r, p, Expected::Bytes, t),
                },
            },
    {
        let position = self.position();
        let (a, b) = self.take_byte_string()?;
        match utf8_text(self.bytes_at(a, b)) {
            Some(text) => Ok(text),
            None => Err(Error::Conversion(position, Cause::InvalidUtf8)),
        }
    }

    /// Reads a single character: a byte string of one ASCII byte.
    pub fn decode_char(&mut self) -> (r: Result<char>)
        requires
            old(self).wf(),
        ensures
            final(self).wf(),
            final(self)@.data == old(self)@.data,
            final(self)@.offset >= old(self)@.offset,
            match step(old(self)@) {
                Err(e) => r matches Err(Error::BencodeDecode(x)) && x == e,
                Ok((t, p, next)) => match t {
                    Token::String(a, b) => if b == a + 1 && old(self)@.data[a as int] < 0x80 {
                        r matches Ok(c) && c as u32 == old(self)@.data[a as int] as u32 && final(self)@
                            == next
                    } else {
                        is_conversion(r, p, Cause::NotOneChar)
                    },
                    _ => is_mismatch(r, p, Expected::Bytes, t),
                },
            },
    {
        let position = self.position();
        let (a, b) = self.take_byte_string()?;
        if b - a == 1 {
            let bytes = self.bytes_at(a, b);
            let byte = bytes[0];
            if byte < 0x80 {
                return Ok(byte as char);
            }
        }
        Err(Error::Conversion(position, Cause::NotOneChar))
    }

    /// Looks at the shape of the next value without taking it.
    pub fn peek_shape(&mut self) -> (r: Result<Shape>)
        requires
            old(self).wf(),
        ensures
            final(self).wf(),
            final(self)@.data == old(self)@.data,
            final(self)@.offset >= old(self)@.offset,
            match peek(old(self)@) {
                Err(e) => r matches Err(Error::BencodeDecode(x)) && x == e,
                Ok((t, p, next)) => final(self)@ == next && match t {
                    Token::Dict => r == Ok::<Shape, Error>(Shape::Dict),
                    Token::List => r == Ok::<Shape, Error>(Shape::List),
                    Token::Num(_, _) => r == Ok::<Shape, Error>(Shape::Integer),
                    Token::String(_, _) => r == Ok::<Shape, Error>(Shape::Bytes),
                    Token::End => is_mismatch(r, p, Expected::Value, t),
                },
            },
    {
        proof {
            lemma_step_wf(self@);
        }
        let token = self.peek_token()?;
        match token {
            Token::Dict => Ok(Shape::Dict),
            Token::List => Ok(Shape::List),
            Token::Num(_, _) => Ok(Shape::Integer),
            Token::String(_, _) => Ok(Shape::Bytes),
            Token::End => Err(Error::Mismatch(self.position(), Expected::Value, Found::End)),
        }
    }

    /// Whether another element or key follows before the closing `e`; nothing
    /// is taken.
    pub fn has_next_entry(&mut self) -> (r: Result<bool>)
        requires
            old(self).wf(),
        ensures
            final(self).wf(),
            final(self)@.data == old(self)@.data,
            final(self)@.offset >= old(self)@.offset,
            match peek(old(self)@) {
                Err(e) => r matches Err(Error::BencodeDecode(x)) && x == e,
                Ok((t, p, next)) => r == Ok::<bool, Error>(!(t is End)) && final(self)@ == next,
            },
    {
        proof {
            lemma_step_wf(self@);
        }
        let token = self.peek_token()?;
        Ok(!matches!(token, Token::End))
    }

    /// Reads the start of an enum value: a dictionary's `d`, after which its
    /// one key names the variant; or a bare byte string that names a variant
    /// without payload. A token of another kind is looked at, not taken.
    pub fn decode_enum_start(&mut self) -> (r: Result<EnumStart<'de>>)
        requires
            old(self).wf(),
        ensures
            final(self).wf(),
            final(self)@.data == old(self)@.data,
            final(self)@.offset >= old(self)@.offset,
            match peek(old(self)@) {
                Err(e) => r matches Err(Error::BencodeDecode(x)) && x == e,
                Ok((t, p, next)) => match t {
                    Token::Dict => r matches Ok(EnumStart::Tagged) && final(self)@ == after_step(old(self)@),
                    Token::String(a, b) => {
                        let bytes = old(self)@.data.subrange(a as int, b as int);
                        if valid_utf8(bytes) {
                            r matches Ok(EnumStart::Unit(name)) && name.spec_bytes() == bytes
                                && final(self)@ == after_step(old(self)@)
                        } else {
                            is_conversion(r, p, Cause::InvalidUtf8)
                        }
                    },
                    _ => is_mismatch(r, p, Expected::DictOrBytes, t) && final(self)@ == next,
                },
            },
    {
        proof {
            lemma_step_wf(self@);
        }
        let position = self.position();
        let token = self.peek_token()?;
        match token {
            Token::Dict | Token::String(_, _) => {},
            other => {
                return Err(Error::Mismatch(position, Expected::DictOrBytes, found(other)));
            },
        }
        proof {
            lemma_step_wf(self@);
        }
        match self.next_token()? {
            Token::String(a, b) => match utf8_text(self.bytes_at(a, b)) {
                Some(name) => Ok(EnumStart::Unit(name)),
                None => Err(Error::Conversion(position, Cause::InvalidUtf8)),
            },
            _ => Ok(EnumStart::Tagged),
        }
    }
}

} // verus!
