//! The wire grammar, stated over the input bytes.
use vstd::prelude::*;

use vstd::utf8::{is_leading_byte_width_1, partial_valid_utf8_extend_ascii_block, valid_utf8};

use crate::token::Token;

verus! {

/// `e`: closes an integer, a list or a dictionary.
pub const END: u8 = 0x65;
/// `l`: opens a list.
pub const LIST: u8 = 0x6c;
/// `d`: opens a dictionary.
pub const DICT: u8 = 0x64;
/// `i`: opens an integer.
pub const INT: u8 = 0x69;
/// `:`: ends the length of a byte string.
pub const COLON: u8 = 0x3a;
/// `-`: the sign of a negative integer.
pub const MINUS: u8 = 0x2d;
pub const ZERO: u8 = 0x30;
pub const NINE: u8 = 0x39;

pub open spec fn is_digit(b: u8) -> bool {
    ZERO <= b <= NINE
}

/// `s` is the text of a natural number: digits, with no leading `0` unless
/// the number is `0` itself.
pub open spec fn is_nat_text(s: Seq<u8>) -> bool {
    &&& s.len() > 0
    &&& forall|i: int| 0 <= i < s.len() ==> is_digit(#[trigger] s[i])
    &&& (s[0] == ZERO ==> s.len() == 1)
}

/// `s` is the text of an integer: a natural number, or `-` and a natural
/// number other than `0`.
pub open spec fn is_int_body(s: Seq<u8>) -> bool {
    ||| is_nat_text(s)
    ||| (s.len() > 1 && s[0] == MINUS && s[1] != ZERO && is_nat_text(s.drop_first()))
}

/// `s` may still grow into the text of an integer.
pub open spec fn is_int_prefix(s: Seq<u8>) -> bool {
    s.len() == 0 || s =~= seq![MINUS] || is_int_body(s)
}

/// The first position from `p` on at which the integer text that starts at
/// `start` can no longer grow (or the end of the input).
pub open spec fn int_stop(data: Seq<u8>, start: int, p: int) -> int
    decreases data.len() - p,
{
    if p >= data.len() || !is_int_prefix(data.subrange(start, p + 1)) {
        p
    } else {
        int_stop(data, start, p + 1)
    }
}

/// Reads the integer text that starts at `start` and is closed by `term`: the
/// position of `term`, or the offset at which the text goes wrong.
pub open spec fn scan_int(data: Seq<u8>, start: int, term: u8) -> core::result::Result<int, int> {
    let p = int_stop(data, start, start);
    if p < data.len() && data[p] == term && is_int_body(data.subrange(start, p)) {
        Ok(p)
    } else {
        Err(p)
    }
}

/// The value of a run of decimal digits.
pub open spec fn digits_value(s: Seq<u8>) -> int
    decreases s.len(),
{
    if s.len() == 0 {
        0
    } else {
        digits_value(s.drop_last()) * 10 + (s.last() - ZERO)
    }
}

/// The value of the text of an integer.
pub open spec fn int_value(s: Seq<u8>) -> int {
    if s.len() > 0 && s[0] == MINUS {
        -digits_value(s.drop_first())
    } else {
        digits_value(s)
    }
}

/// Reads a byte string whose length prefix starts at `pos`.
pub open spec fn scan_bytes(data: Seq<u8>, pos: int) -> core::result::Result<(Token, int), int> {
    match scan_int(data, pos, COLON) {
        Err(e) => Err(e),
        Ok(colon) => {
            let len = digits_value(data.subrange(pos, colon));
            if len > usize::MAX {
                Err(pos)
            } else if colon + 1 + len > data.len() {
                Err(colon + 1)
            } else {
                Ok((Token::String((colon + 1) as usize, (colon + 1 + len) as usize), colon + 1 + len))
            }
        },
    }
}

/// Reads one token at `pos`: the token and the position after it, or the
/// offset at which the input breaks the grammar.
pub open spec fn scan_token(data: Seq<u8>, pos: int) -> core::result::Result<(Token, int), int> {
    if pos >= data.len() {
        Err(pos)
    } else {
        let c = data[pos];
        if c == END {
            Ok((Token::End, pos + 1))
        } else if c == LIST {
            Ok((Token::List, pos + 1))
        } else if c == DICT {
            Ok((Token::Dict, pos + 1))
        } else if c == INT {
            match scan_int(data, pos + 1, END) {
                Ok(end) => Ok((Token::Num((pos + 1) as usize, end as usize), end + 1)),
                Err(e) => Err(e),
            }
        } else if is_digit(c) {
            scan_bytes(data, pos)
        } else {
            Err(pos + 1)
        }
    }
}

/// The span of a token lies in `[lo, hi]`.
pub open spec fn token_within(t: Token, lo: int, hi: int) -> bool {
    match t {
        Token::String(a, b) => lo <= a <= b <= hi,
        Token::Num(a, b) => lo <= a <= b <= hi,
        _ => true,
    }
}

pub proof fn lemma_int_stop_bounds(data: Seq<u8>, start: int, p: int)
    requires
        0 <= start <= p <= data.len(),
    ensures
        p <= int_stop(data, start, p) <= data.len(),
    decreases data.len() - p,
{
    if p < data.len() && is_int_prefix(data.subrange(start, p + 1)) {
        lemma_int_stop_bounds(data, start, p + 1);
    }
}

/// A token that is read lies after its position, within the input.
pub proof fn lemma_scan_advances(data: Seq<u8>, pos: int)
    requires
        0 <= pos <= data.len(),
        data.len() <= usize::MAX,
    ensures
        scan_token(data, pos) matches Ok((t, q)) ==> pos < q <= data.len() && token_within(t, pos, q),
        scan_token(data, pos) matches Err(e) ==> pos <= e <= data.len(),
        scan_token(data, pos) matches Ok((Token::Num(a, b), _)) ==> is_int_body(
            data.subrange(a as int, b as int),
        ),
{
    if pos < data.len() {
        lemma_int_stop_bounds(data, pos + 1, pos + 1);
        lemma_int_stop_bounds(data, pos, pos);
        if is_digit(data[pos]) {
            if let Ok(colon) = scan_int(data, pos, COLON) {
                let s = data.subrange(pos, colon);
                assert(is_int_body(s));
                assert(s[0] == data[pos]);
                assert(s[0] != MINUS);
                lemma_digits_value_nonneg(s);
            }
        }
    }
}

pub proof fn lemma_digits_value_nonneg(s: Seq<u8>)
    requires
        forall|i: int| 0 <= i < s.len() ==> is_digit(#[trigger] s[i]),
    ensures
        digits_value(s) >= 0,
    decreases s.len(),
{
    if s.len() > 0 {
        assert(is_digit(s[s.len() - 1]));
        lemma_digits_value_nonneg(s.drop_last());
    }
}

/// The text of an integer is ASCII, so it is valid UTF-8.
pub proof fn lemma_int_text_utf8(s: Seq<u8>)
    requires
        is_int_body(s),
    ensures
        valid_utf8(s),
{
    assert forall|i: int| 0 <= 0 <= i < s.len() <= s.len() implies #[trigger] is_leading_byte_width_1(s[i]) by {
        if i > 0 && s[0] == MINUS && !is_nat_text(s) {
            assert(s[i] == s.drop_first()[i - 1]);
        }
    }
    assert(s.subrange(0, 0) =~= Seq::<u8>::empty());
    partial_valid_utf8_extend_ascii_block(s, 0, s.len() as int);
    assert(s.subrange(0, s.len() as int) =~= s);
}

/// A run of digits is worth at least any of its prefixes.
pub proof fn lemma_digits_value_prefix(s: Seq<u8>, k: int)
    requires
        0 <= k <= s.len(),
        forall|i: int| 0 <= i < s.len() ==> is_digit(#[trigger] s[i]),
    ensures
        digits_value(s) >= digits_value(s.subrange(0, k)),
    decreases s.len(),
{
    if k < s.len() {
        let t = s.drop_last();
        assert(is_digit(s[s.len() - 1]));
        assert forall|i: int| 0 <= i < t.len() implies is_digit(#[trigger] t[i]) by {
            assert(t[i] == s[i]);
        }
        lemma_digits_value_nonneg(t);
        lemma_digits_value_prefix(t, k);
        assert(t.subrange(0, k) =~= s.subrange(0, k));
    } else {
        assert(s.subrange(0, k) =~= s);
    }
}

} // verus!
