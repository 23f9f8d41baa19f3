//! Laws of the encoding that relate several readings of it.
use vstd::prelude::*;

use crate::grammar::{
    digits_value, int_stop, is_digit, is_int_body, is_int_prefix, is_nat_text, lemma_int_stop_bounds,
    lemma_scan_advances, scan_bytes, scan_int, scan_token, COLON, DICT, LIST, ZERO,
};
use crate::parser::{drain, lemma_drain_wf, lemma_step_wf, step, ParserState};
use crate::token::Token;

verus! {

/// The decimal text of `n`, with no leading zero.
pub open spec fn decimal_text(n: nat) -> Seq<u8>
    decreases n,
{
    if n < 10 {
        seq![(ZERO + n) as u8]
    } else {
        decimal_text(n / 10).push((ZERO + n % 10) as u8)
    }
}

/// The encoding of a byte string: its length in decimal, `:`, then its bytes.
pub open spec fn encode_bytes(b: Seq<u8>) -> Seq<u8> {
    decimal_text(b.len()) + seq![COLON] + b
}

proof fn lemma_decimal_text(n: nat)
    ensures
        is_nat_text(decimal_text(n)),
        digits_value(decimal_text(n)) == n,
        decimal_text(n).len() <= n + 1,
        decimal_text(n)[0] == ZERO ==> n == 0,
    decreases n,
{
    let t = decimal_text(n);
    if n >= 10 {
        let h = decimal_text(n / 10);
        lemma_decimal_text(n / 10);
        assert(t.drop_last() =~= h);
        assert forall|i: int| 0 <= i < t.len() implies is_digit(#[trigger] t[i]) by {
            if i < h.len() {
                assert(t[i] == h[i]);
            }
        }
        assert(t[0] == h[0]);
        assert(t.last() == (ZERO + n % 10) as u8);
        assert(digits_value(t) == digits_value(h) * 10 + (t.last() - ZERO));
        assert((n / 10) * 10 + n % 10 == n) by (nonlinear_arith);
    } else {
        assert(t.drop_last() =~= Seq::<u8>::empty());
        assert(t.last() == (ZERO + n) as u8);
        assert(digits_value(t) == digits_value(t.drop_last()) * 10 + (t.last() - ZERO));
    }
}

/// Every non-empty prefix of the text of a natural number is one too.
proof fn lemma_nat_text_prefix(s: Seq<u8>, k: int)
    requires
        is_nat_text(s),
        1 <= k <= s.len(),
    ensures
        is_nat_text(s.subrange(0, k)),
{
    let p = s.subrange(0, k);
    assert forall|i: int| 0 <= i < p.len() implies is_digit(#[trigger] p[i]) by {
        assert(p[i] == s[i]);
    }
}

/// The integer text that opens `data` is read up to `end`, where it stops
/// growing.
proof fn lemma_int_stop_text(data: Seq<u8>, end: int, p: int)
    requires
        0 <= p <= end < data.len(),
        is_nat_text(data.subrange(0, end)),
        !is_digit(data[end]),
    ensures
        int_stop(data, 0, p) == end,
    decreases end - p,
{
    if p < end {
        lemma_nat_text_prefix(data.subrange(0, end), p + 1);
        assert(data.subrange(0, end).subrange(0, p + 1) =~= data.subrange(0, p + 1));
        lemma_int_stop_text(data, end, p + 1);
    } else {
        let s = data.subrange(0, p + 1);
        assert(s[s.len() - 1] == data[end]);
        if s.len() > 1 && s[0] == crate::grammar::MINUS {
            assert(s.drop_first()[s.len() - 2] == data[end]);
        }
        assert(!is_int_prefix(s));
    }
}

/// Encoding a byte string and reading it back gives the same bytes: the one
/// token at the start of the encoding is that byte string, and it spans the
/// whole encoding.
pub proof fn lemma_byte_string_round_trip(b: Seq<u8>)
    requires
        encode_bytes(b).len() <= usize::MAX,
    ensures
        ({
            let data = encode_bytes(b);
            let start = decimal_text(b.len()).len() + 1;
            &&& step(ParserState { data, offset: 0, peeked: None, depth: 0 }) matches Ok(
                (Token::String(a, e), p, next),
            )
            &&& a == start && e == data.len() && p == 0 && next.offset == data.len()
            &&& data.subrange(a as int, e as int) == b
        }),
{
    let data = encode_bytes(b);
    let text = decimal_text(b.len());
    lemma_decimal_text(b.len());
    let colon = text.len() as int;
    assert(data.subrange(0, colon) =~= text);
    assert(data[colon] == COLON);
    assert(data[0] == text[0]);
    lemma_int_stop_text(data, colon, 0);
    assert(is_int_body(data.subrange(0, colon)));
    assert(scan_int(data, 0, COLON) == Ok::<int, int>(colon));
    assert(is_digit(data[0]));
    assert(data.subrange(colon + 1, data.len() as int) =~= b);
}

/// What a token says apart from where it stands: its kind, and the bytes of
/// an integer or a byte string.
pub ghost enum TokenValue {
    List,
    Dict,
    Bytes(Seq<u8>),
    Int(Seq<u8>),
    End,
}

pub open spec fn token_value(data: Seq<u8>, t: Token) -> TokenValue {
    match t {
        Token::List => TokenValue::List,
        Token::Dict => TokenValue::Dict,
        Token::String(a, b) => TokenValue::Bytes(data.subrange(a as int, b as int)),
        Token::Num(a, b) => TokenValue::Int(data.subrange(a as int, b as int)),
        Token::End => TokenValue::End,
    }
}

/// The tokens that draining `s` down to `level` takes, in order.
pub open spec fn drained_tokens(s: ParserState, level: int) -> Seq<TokenValue>
    decreases s.data.len() - s.offset, if s.peeked is Some { 1int } else { 0int },
    when s.wf()
    via drained_tokens_decreases
{
    if s.depth <= level {
        Seq::empty()
    } else {
        match step(s) {
            Ok((t, _, next)) => seq![token_value(s.data, t)] + drained_tokens(next, level),
            Err(_) => Seq::empty(),
        }
    }
}

#[via_fn]
proof fn drained_tokens_decreases(s: ParserState, level: int) {
    lemma_step_wf(s);
}

/// The token `t` read from input that begins `s` bytes later.
pub open spec fn shift_token(t: Token, s: int) -> Token {
    match t {
        Token::String(a, b) => Token::String((a - s) as usize, (b - s) as usize),
        Token::Num(a, b) => Token::Num((a - s) as usize, (b - s) as usize),
        _ => t,
    }
}

proof fn lemma_int_stop_shift(data: Seq<u8>, s: int, e: int, start: int, p: int)
    requires
        0 <= s <= start <= p,
        e <= data.len(),
        int_stop(data, start, p) < e,
    ensures
        int_stop(data.subrange(s, e), start - s, p - s) == int_stop(data, start, p) - s,
    decreases data.len() - p,
{
    let sub = data.subrange(s, e);
    if p < data.len() {
        lemma_int_stop_bounds(data, start, p);
        assert(data.subrange(start, p + 1) =~= sub.subrange(start - s, p - s + 1));
        if is_int_prefix(data.subrange(start, p + 1)) {
            lemma_int_stop_shift(data, s, e, start, p + 1);
        }
    }
}

proof fn lemma_scan_int_shift(data: Seq<u8>, s: int, e: int, start: int, term: u8, end: int)
    requires
        0 <= s <= start,
        e <= data.len(),
        scan_int(data, start, term) == Ok::<int, int>(end),
        end < e,
    ensures
        scan_int(data.subrange(s, e), start - s, term) == Ok::<int, int>(end - s),
        data.subrange(start, end) == data.subrange(s, e).subrange(start - s, end - s),
{
    lemma_int_stop_bounds(data, start, start);
    lemma_int_stop_shift(data, s, e, start, start);
    assert(data.subrange(start, end) =~= data.subrange(s, e).subrange(start - s, end - s));
}

/// A token read inside `[s, e)` reads the same from those bytes alone.
proof fn lemma_scan_shift(data: Seq<u8>, s: int, e: int, p: int)
    requires
        0 <= s <= p,
        e <= data.len() <= usize::MAX,
        scan_token(data, p) is Ok,
        scan_token(data, p)->Ok_0.1 <= e,
    ensures
        ({
            let (t, q) = scan_token(data, p)->Ok_0;
            &&& scan_token(data.subrange(s, e), p - s) == Ok::<(Token, int), int>((shift_token(t, s), q - s))
            &&& token_value(data.subrange(s, e), shift_token(t, s)) == token_value(data, t)
        }),
{
    let sub = data.subrange(s, e);
    lemma_scan_advances(data, p);
    let (t, q) = scan_token(data, p)->Ok_0;
    let c = data[p];
    assert(sub[p - s] == c);
    if c == crate::grammar::INT {
        let end = scan_int(data, p + 1, crate::grammar::END)->Ok_0;
        lemma_scan_int_shift(data, s, e, p + 1, crate::grammar::END, end);
    } else if is_digit(c) && !(c == crate::grammar::END || c == LIST || c == DICT) {
        let colon = scan_int(data, p, COLON)->Ok_0;
        lemma_int_stop_bounds(data, p, p);
        lemma_scan_int_shift(data, s, e, p, COLON, colon);
        assert(scan_bytes(data, p) == Ok::<(Token, int), int>((t, q)));
    }
    match t {
        Token::String(a, b) => {
            assert(data.subrange(a as int, b as int) =~= sub.subrange(a - s, b - s));
        },
        Token::Num(a, b) => {
            assert(data.subrange(a as int, b as int) =~= sub.subrange(a - s, b - s));
        },
        _ => {},
    }
}

/// The state `st` of a reading of `data`, seen from a reading of the bytes
/// `[s, e)` alone that began at depth `d` of the first.
pub open spec fn shifted(st: ParserState, s: int, e: int, d: int) -> ParserState {
    ParserState { data: st.data.subrange(s, e), offset: st.offset - s, peeked: None, depth: st.depth - d }
}

proof fn lemma_drain_shift(st: ParserState, s: int, e: int, d: int, level: int)
    requires
        st.wf(),
        st.peeked is None,
        0 <= s <= st.offset,
        0 <= d <= level,
        d <= st.depth,
        st.depth - d <= st.offset - s,
        drain(st, level) is Ok,
        drain(st, level)->Ok_0.offset <= e,
        e <= st.data.len(),
    ensures
        drain(shifted(st, s, e, d), level - d) == Ok::<ParserState, int>(
            shifted(drain(st, level)->Ok_0, s, e, d),
        ),
        drained_tokens(shifted(st, s, e, d), level - d) == drained_tokens(st, level),
    decreases st.data.len() - st.offset,
{
    let u = shifted(st, s, e, d);
    lemma_drain_wf(st, level);
    if st.depth > level {
        lemma_step_wf(st);
        let (t, p, next) = step(st)->Ok_0;
        lemma_drain_wf(next, level);
        lemma_scan_shift(st.data, s, e, st.offset);
        assert(u.wf());
        assert(step(u) == Ok::<(Token, int, ParserState), int>((shift_token(t, s), p - s, shifted(next, s, e, d))));
        lemma_drain_shift(next, s, e, d, level);
    } else {
        assert(drain(st, level) == Ok::<ParserState, int>(st));
    }
}

/// Reading the exact bytes of a list or dictionary, as raw-slice extraction
/// gives them, on their own: the same opening token comes first, the same
/// tokens with the same contents follow, and the reading ends exactly at the
/// end of those bytes. So any decoding, which depends on the tokens alone,
/// gives the same value from the extracted bytes as in place.
pub proof fn lemma_raw_slice_reads_alike(data: Seq<u8>, s: int, level: int)
    requires
        0 <= level <= s < data.len() <= usize::MAX,
        data[s] == LIST || data[s] == DICT,
        drain(ParserState { data, offset: s + 1, peeked: None, depth: level + 1 }, level) is Ok,
    ensures
        ({
            let inside = ParserState { data, offset: s + 1, peeked: None, depth: level + 1 };
            let e = drain(inside, level)->Ok_0.offset;
            let sub = data.subrange(s, e);
            let alone = ParserState { data: sub, offset: 0, peeked: None, depth: 0 };
            let first = step(alone);
            &&& first is Ok
            &&& first->Ok_0.1 == 0
            &&& token_value(sub, first->Ok_0.0) == token_value(data, scan_token(data, s)->Ok_0.0)
            &&& drain(first->Ok_0.2, 0) is Ok
            &&& drain(first->Ok_0.2, 0)->Ok_0.offset == sub.len()
            &&& drained_tokens(first->Ok_0.2, 0) == drained_tokens(inside, level)
        }),
{
    let inside = ParserState { data, offset: s + 1, peeked: None, depth: level + 1 };
    lemma_drain_wf(inside, level);
    let fin = drain(inside, level)->Ok_0;
    let e = fin.offset;
    let sub = data.subrange(s, e);
    let alone = ParserState { data: sub, offset: 0, peeked: None, depth: 0 };
    lemma_scan_shift(data, s, e, s);
    assert(shifted(inside, s, e, level) == ParserState { data: sub, offset: 1, peeked: None, depth: 1 });
    lemma_drain_shift(inside, s, e, level, level);
    assert(step(alone) == Ok::<(Token, int, ParserState), int>(
        (scan_token(data, s)->Ok_0.0, 0, shifted(inside, s, e, level)),
    ));
}

/// The state after taking `n` tokens from `s` while deeper than `level`:
/// a partial reading of what is open there. `None` when the reading would
/// leave that depth or meet an error first.
pub open spec fn read_within(s: ParserState, level: int, n: nat) -> Option<ParserState>
    decreases n,
{
    if n == 0 {
        Some(s)
    } else if s.depth <= level {
        None
    } else {
        match step(s) {
            Ok((_, _, next)) => read_within(next, level, (n - 1) as nat),
            Err(_) => None,
        }
    }
}

/// Letting go of a list or dictionary after reading any part of it: the next
/// read of the cursor or parser it came from first drains down to that
/// cursor's level, and so lands where it would have landed had nothing of
/// the structure been read, on the next sibling.
pub proof fn lemma_abandoned_read_lands_alike(s: ParserState, level: int, n: nat)
    requires
        s.wf(),
        read_within(s, level, n) is Some,
    ensures
        drain(read_within(s, level, n)->Some_0, level) == drain(s, level),
    decreases n,
{
    if n > 0 {
        lemma_step_wf(s);
        let (_, _, next) = step(s)->Ok_0;
        lemma_abandoned_read_lands_alike(next, level, (n - 1) as nat);
    }
}

} // verus!
