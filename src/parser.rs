//! The tokenizer: one read position over the input, with one token of look-ahead.
use vstd::prelude::*;
use vstd::string::StringSliceAdditionalSpecFns;

use crate::error::{found, is_mismatch, Error, Expected, Result};
use crate::grammar::{
    digits_value, int_stop, is_digit, is_int_body, is_int_prefix, is_nat_text,
    lemma_digits_value_nonneg, lemma_digits_value_prefix, lemma_int_stop_bounds, lemma_int_text_utf8,
    lemma_scan_advances, scan_bytes, scan_int, scan_token, token_within, COLON, DICT, END, INT, LIST,
    MINUS, NINE, ZERO,
};
use crate::text::utf8_text;
use crate::token::Token;

verus! {

/// What a parser holds, as the contracts speak of it.
pub ghost struct ParserState {
    /// The whole input.
    pub data: Seq<u8>,
    /// The position after everything scanned so far.
    pub offset: int,
    /// A token scanned but not yet taken, with the position where it began.
    pub peeked: Option<(Token, int)>,
    /// How many lists and dictionaries have been opened and not yet closed.
    pub depth: int,
}

impl ParserState {
    pub open spec fn wf(self) -> bool {
        &&& 0 <= self.depth <= self.pos() <= self.offset <= self.data.len() <= usize::MAX
        &&& self.peeked matches Some((t, p)) ==> {
            &&& scan_token(self.data, p) == Ok::<(Token, int), int>((t, self.offset))
            &&& p < self.offset
            &&& token_within(t, p, self.offset)
        }
    }

    /// Where the next token begins.
    pub open spec fn pos(self) -> int {
        match self.peeked {
            Some((_, p)) => p,
            None => self.offset,
        }
    }
}

/// The depth after taking token `t`.
pub open spec fn depth_after(depth: int, t: Token) -> int {
    match t {
        Token::List | Token::Dict => depth + 1,
        Token::End => if depth > 0 {
            depth - 1
        } else {
            0
        },
        _ => depth,
    }
}

/// Takes the next token: the token, where it began and the state after it; or
/// the offset of a grammar error.
pub open spec fn step(s: ParserState) -> core::result::Result<(Token, int, ParserState), int> {
    match s.peeked {
        Some((t, p)) => Ok((t, p, ParserState { peeked: None, depth: depth_after(s.depth, t), ..s })),
        None => match scan_token(s.data, s.offset) {
            Ok((t, q)) => Ok(
                (t, s.offset, ParserState { offset: q, peeked: None, depth: depth_after(s.depth, t), ..s }),
            ),
            Err(e) => Err(e),
        },
    }
}

/// The state after the next token of `s`, where there is one.
pub open spec fn after_step(s: ParserState) -> ParserState {
    match step(s) {
        Ok((_, _, next)) => next,
        Err(_) => s,
    }
}

/// Looks at the next token and keeps it for the next step.
pub open spec fn peek(s: ParserState) -> core::result::Result<(Token, int, ParserState), int> {
    match s.peeked {
        Some((t, p)) => Ok((t, p, s)),
        None => match scan_token(s.data, s.offset) {
            Ok((t, q)) => Ok((t, s.offset, ParserState { offset: q, peeked: Some((t, s.offset)), ..s })),
            Err(e) => Err(e),
        },
    }
}

/// Takes tokens until the depth is down to `level`: the state then, or the
/// offset of a grammar error met on the way.
pub open spec fn drain(s: ParserState, level: int) -> core::result::Result<ParserState, int>
    decreases s.data.len() - s.offset, if s.peeked is Some { 1int } else { 0int },
    when s.wf()
    via drain_decreases
{
    if s.depth <= level {
        Ok(s)
    } else {
        match step(s) {
            Ok((_, _, next)) => drain(next, level),
            Err(e) => Err(e),
        }
    }
}

/// Draining keeps the state well formed, over the same input, and moves forward.
pub proof fn lemma_drain_wf(s: ParserState, level: int)
    requires
        s.wf(),
    ensures
        drain(s, level) matches Ok(next) ==> next.wf() && next.data == s.data && next.offset >= s.offset
            && (s.depth <= level ==> next == s) && next.depth <= level,
        drain(s, level) matches Err(e) ==> 0 <= e <= s.data.len(),
    decreases s.data.len() - s.offset, if s.peeked is Some { 1int } else { 0int },
{
    lemma_step_wf(s);
    if s.depth > level {
        if let Ok((_, _, next)) = step(s) {
            lemma_drain_wf(next, level);
        }
    }
}

/// The next two tokens are `l` and `e`.
pub open spec fn empty_list_next(s: ParserState) -> bool {
    match step(s) {
        Ok((t1, _, s1)) => t1 is List && match step(s1) {
            Ok((t2, _, _)) => t2 is End,
            Err(_) => false,
        },
        Err(_) => false,
    }
}

#[via_fn]
proof fn drain_decreases(s: ParserState, level: int) {
    lemma_step_wf(s);
}

/// A step keeps the state well formed and moves forward.
pub proof fn lemma_step_wf(s: ParserState)
    requires
        s.wf(),
    ensures
        step(s) matches Ok((t, p, next)) ==> {
            &&& next.wf()
            &&& next.data == s.data
            &&& p == s.pos()
            &&& next.pos() == next.offset
            &&& (s.peeked is Some ==> next.offset == s.offset)
            &&& (s.peeked is None ==> next.offset > s.offset)
            &&& scan_token(s.data, p) == Ok::<(Token, int), int>((t, next.offset))
            &&& token_within(t, p, next.offset)
        },
        step(s) matches Err(e) ==> 0 <= e <= s.data.len(),
        peek(s) matches Err(e) ==> 0 <= e <= s.data.len(),
        peek(s) matches Ok((t, p, next)) ==> {
            &&& next.wf()
            &&& next.data == s.data
            &&& next.depth == s.depth
            &&& next.peeked == Some((t, p))
            &&& p == s.pos()
            &&& step(next) == step(s)
        },
{
    lemma_scan_advances(s.data, s.offset);
}

/// A reader of tokens over a borrowed input.
pub struct BencodeParser<'de> {
    data: &'de [u8],
    offset: usize,
    peeked_token: Option<Token>,
    peek_start: usize,
    depth: usize,
}

impl<'de> View for BencodeParser<'de> {
    type V = ParserState;

    closed spec fn view(&self) -> ParserState {
        ParserState {
            data: self.data@,
            offset: self.offset as int,
            peeked: match self.peeked_token {
                Some(t) => Some((t, self.peek_start as int)),
                None => None,
            },
            depth: self.depth as int,
        }
    }
}

/// Where the integer reader stands.
enum IntState {
    Start,
    Sign,
    Zero,
    Digits,
}

impl<'de> BencodeParser<'de> {
    pub open spec fn wf(&self) -> bool {
        self@.wf()
    }

    pub fn new(data: &'de [u8]) -> (r: Self)
        ensures
            r@ == (ParserState { data: data@, offset: 0, peeked: None, depth: 0 }),
            r.wf(),
    {
        assert(data@.len() == data.len());
        BencodeParser { data, offset: 0, peeked_token: None, peek_start: 0, depth: 0 }
    }

    /// Moves forward one byte.
    fn take_byte(&mut self) -> (r: Option<u8>)
        requires
            old(self).wf(),
            old(self)@.peeked is None,
        ensures
            final(self)@ == (ParserState { offset: final(self)@.offset, ..old(self)@ }),
            old(self)@.offset < old(self)@.data.len() ==> r == Some(old(self)@.data[old(self)@.offset])
                && final(self)@.offset == old(self)@.offset + 1,
            old(self)@.offset >= old(self)@.data.len() ==> r is None && final(self)@.offset
                == old(self)@.offset,
    {
        if self.offset < self.data.len() {
            let ret = Some(self.data[self.offset]);
            self.offset = self.offset + 1;
            ret
        } else {
            None
        }
    }

    /// Moves forward `count` bytes: the span that was passed over.
    fn take_chunk(&mut self, count: usize) -> (r: Option<(usize, usize)>)
        requires
            old(self).wf(),
            old(self)@.peeked is None,
        ensures
            old(self)@.offset + count <= old(self)@.data.len() ==> r == Some(
                (old(self)@.offset as usize, (old(self)@.offset + count) as usize),
            ) && final(self)@ == (ParserState {
                offset: old(self)@.offset + count,
                ..old(self)@
            }),
            old(self)@.offset + count > old(self)@.data.len() ==> r is None && final(self)@ == old(
                self,
            )@,
    {
        match self.offset.checked_add(count) {
            Some(end_pos) => {
                if end_pos <= self.data.len() {
                    let start = self.offset;
                    self.offset = end_pos;
                    Some((start, end_pos))
                } else {
                    None
                }
            },
            None => None,
        }
    }

    /// Reads the text of an integer closed by `term`, and the terminator: the
    /// span of the text.
    fn take_int(&mut self, term: u8) -> (r: Result<(usize, usize)>)
        requires
            old(self).wf(),
            old(self)@.peeked is None,
            !is_digit(term),
            term != MINUS,
        ensures
            final(self)@.offset >= old(self)@.offset,
            final(self)@.data == old(self)@.data,
            final(self)@.depth == old(self)@.depth,
            final(self)@.peeked is None,
            final(self).wf(),
            r is Err ==> final(self)@ == old(self)@,
            match scan_int(old(self)@.data, old(self)@.offset, term) {
                Ok(end) => old(self)@.offset <= end < old(self)@.data.len() && r == Ok::<
                    (usize, usize),
                    Error,
                >((old(self)@.offset as usize, end as usize)) && final(self)@.offset == end + 1,
                Err(e) => old(self)@.offset <= e <= old(self)@.data.len() && r == Err::<
                    (usize, usize),
                    Error,
                >(Error::BencodeDecode(e as usize)),
            },
    {
        let ghost data = self.data@;
        let start = self.offset;
        let mut cur = self.offset;
        let mut state = IntState::Start;
        proof {
            lemma_int_stop_bounds(data, start as int, start as int);
            assert(data.subrange(start as int, start as int) =~= Seq::<u8>::empty());
        }
        while cur < self.data.len()
            invariant
                self@ == old(self)@,
                self@.peeked is None,
                self.wf(),
                data == self.data@,
                start == self.offset,
                start <= cur <= data.len(),
                is_int_prefix(data.subrange(start as int, cur as int)),
                int_stop(data, start as int, start as int) == int_stop(data, start as int, cur as int),
                state is Start <==> cur == start,
                state is Sign ==> data.subrange(start as int, cur as int) =~= seq![MINUS],
                state is Zero ==> data.subrange(start as int, cur as int) =~= seq![ZERO],
                state is Digits ==> is_int_body(data.subrange(start as int, cur as int)) && !(data.subrange(
                    start as int,
                    cur as int,
                ) =~= seq![ZERO]),
                !is_digit(term),
                term != MINUS,
            decreases data.len() - cur,
        {
            let c = self.data[cur];
            let ghost s = data.subrange(start as int, cur as int);
            let ghost s2 = data.subrange(start as int, cur as int + 1);
            assert(s2 =~= s.push(c));
            assert(s2[s2.len() - 1] == c);
            match state {
                IntState::Start => {
                    assert(s2 =~= seq![c]);
                    if c == MINUS {
                        state = IntState::Sign;
                    } else if c == ZERO {
                        state = IntState::Zero;
                        assert(is_nat_text(s2));
                    } else if ZERO < c && c <= NINE {
                        state = IntState::Digits;
                        assert(is_nat_text(s2));
                    } else {
                        assert(!is_int_prefix(s2));
                        return Err(Error::BencodeDecode(cur));
                    }
                },
                IntState::Zero => {
                    assert(!is_int_prefix(s2));
                    if c == term {
                        assert(is_nat_text(s));
                        self.offset = cur + 1;
                        return Ok((start, cur));
                    } else {
                        return Err(Error::BencodeDecode(cur));
                    }
                },
                IntState::Sign => {
                    if ZERO < c && c <= NINE {
                        state = IntState::Digits;
                        assert(s2.drop_first() =~= seq![c]);
                        assert(is_int_body(s2));
                    } else {
                        assert(s2.len() == 2 && s2[0] == MINUS && s2[1] == c);
                        assert(s2.drop_first()[0] == c);
                        assert(!is_nat_text(s2));
                        assert(!is_int_prefix(s2));
                        return Err(Error::BencodeDecode(cur));
                    }
                },
                IntState::Digits => {
                    if ZERO <= c && c <= NINE {
                        proof {
                            if is_nat_text(s) {
                                assert(is_nat_text(s2));
                            } else {
                                assert(s2.drop_first() =~= s.drop_first().push(c));
                                assert(is_nat_text(s2.drop_first()));
                            }
                        }
                    } else {
                        assert(!is_nat_text(s2));
                        assert(s2.drop_first()[s2.len() - 2] == c);
                        assert(!is_int_prefix(s2));
                        if c == term {
                            self.offset = cur + 1;
                            return Ok((start, cur));
                        } else {
                            return Err(Error::BencodeDecode(cur));
                        }
                    }
                },
            }
            cur = cur + 1;
        }
        Err(Error::BencodeDecode(cur))
    }

    /// The value of the digits in `[start, end)`, if it fits in `usize`.
    fn length_value(&self, start: usize, end: usize) -> (r: Option<usize>)
        requires
            start <= end <= self@.data.len(),
            forall|i: int| start <= i < end ==> is_digit(#[trigger] self@.data[i]),
        ensures
            digits_value(self@.data.subrange(start as int, end as int)) <= usize::MAX ==> r == Some(
                digits_value(self@.data.subrange(start as int, end as int)) as usize,
            ),
            digits_value(self@.data.subrange(start as int, end as int)) > usize::MAX ==> r is None,
    {
        let ghost whole = self.data@.subrange(start as int, end as int);
        assert forall|i: int| 0 <= i < whole.len() implies is_digit(#[trigger] whole[i]) by {
            assert(whole[i] == self.data@[start + i]);
        }
        let mut value: usize = 0;
        let mut i = start;
        assert(self.data@.subrange(start as int, start as int) =~= Seq::<u8>::empty());
        while i < end
            invariant
                start <= i <= end <= self.data@.len(),
                forall|j: int| start <= j < end ==> is_digit(#[trigger] self.data@[j]),
                whole == self.data@.subrange(start as int, end as int),
                forall|j: int| 0 <= j < whole.len() ==> is_digit(#[trigger] whole[j]),
                value == digits_value(self.data@.subrange(start as int, i as int)),
            decreases end - i,
        {
            let ghost before = self.data@.subrange(start as int, i as int);
            let ghost after = self.data@.subrange(start as int, i + 1);
            assert(after.drop_last() =~= before);
            assert(is_digit(self.data@[i as int]));
            let digit = (self.data[i] - ZERO) as usize;
            assert(after =~= whole.subrange(0, i - start + 1));
            match value.checked_mul(10) {
                Some(tens) => match tens.checked_add(digit) {
                    Some(next) => {
                        value = next;
                    },
                    None => {
                        proof {
                            lemma_digits_value_prefix(whole, i - start + 1);
                        }
                        return None;
                    },
                },
                None => {
                    proof {
                        lemma_digits_value_prefix(whole, i - start + 1);
                    }
                    return None;
                },
            }
            i = i + 1;
        }
        Some(value)
    }

    /// Reads a byte string: its length, `:`, and that many bytes. Gives the
    /// span of the bytes.
    fn take_bytes(&mut self) -> (r: Result<(usize, usize)>)
        requires
            old(self).wf(),
            old(self)@.peeked is None,
            old(self)@.offset < old(self)@.data.len(),
            is_digit(old(self)@.data[old(self)@.offset]),
        ensures
            final(self)@.offset >= old(self)@.offset,
            final(self)@.data == old(self)@.data,
            final(self)@.depth == old(self)@.depth,
            final(self)@.peeked is None,
            final(self).wf(),
            match scan_bytes(old(self)@.data, old(self)@.offset) {
                Ok((t, q)) => t matches Token::String(a, b) && r == Ok::<(usize, usize), Error>((a, b))
                    && final(self)@.offset == q,
                Err(e) => r == Err::<(usize, usize), Error>(Error::BencodeDecode(e as usize)),
            },
    {
        let cur_position = self.offset;
        let (start, end) = self.take_int(COLON)?;
        proof {
            let s = self.data@.subrange(start as int, end as int);
            assert(is_int_body(s));
            assert(s[0] == self.data@[cur_position as int]);
            assert forall|i: int| start <= i < end implies is_digit(#[trigger] self.data@[i]) by {
                assert(self.data@[i] == s[i - start]);
            }
            assert forall|i: int| 0 <= i < s.len() implies is_digit(#[trigger] s[i]) by {
                assert(s[i] == self.data@[start + i]);
            }
            lemma_digits_value_nonneg(s);
        }
        match self.length_value(start, end) {
            Some(len) => match self.take_chunk(len) {
                Some(span) => Ok(span),
                None => Err(Error::BencodeDecode(self.offset)),
            },
            None => Err(Error::BencodeDecode(cur_position)),
        }
    }

    /// Scans the next token from the input.
    fn next_raw_token(&mut self) -> (r: Result<Token>)
        requires
            old(self).wf(),
            old(self)@.peeked is None,
        ensures
            final(self)@.offset >= old(self)@.offset,
            final(self)@.data == old(self)@.data,
            final(self)@.depth == old(self)@.depth,
            final(self)@.peeked is None,
            final(self).wf(),
            match scan_token(old(self)@.data, old(self)@.offset) {
                Ok((t, q)) => r == Ok::<Token, Error>(t) && final(self)@.offset == q,
                Err(e) => r == Err::<Token, Error>(Error::BencodeDecode(e as usize)),
            },
    {
        let position = self.offset;
        match self.take_byte() {
            None => Err(Error::BencodeDecode(position)),
            Some(c) => {
                if c == END {
                    Ok(Token::End)
                } else if c == LIST {
                    Ok(Token::List)
                } else if c == DICT {
                    Ok(Token::Dict)
                } else if c == INT {
                    let (start, end) = self.take_int(END)?;
                    Ok(Token::Num(start, end))
                } else if ZERO <= c && c <= NINE {
                    self.offset = self.offset - 1;
                    let (start, end) = self.take_bytes()?;
                    Ok(Token::String(start, end))
                } else {
                    Err(Error::BencodeDecode(self.offset))
                }
            },
        }
    }

    /// Looks at the next token without taking it; the next step takes it.
    pub(crate) fn peek_token(&mut self) -> (r: Result<Token>)
        requires
            old(self).wf(),
        ensures
            final(self)@.offset >= old(self)@.offset,
            final(self).wf(),
            final(self)@.data == old(self)@.data,
            match peek(old(self)@) {
                Ok((t, p, next)) => r == Ok::<Token, Error>(t) && final(self)@ == next,
                Err(e) => r matches Err(Error::BencodeDecode(x)) && x == e,
            },
    {
        proof {
            lemma_step_wf(self@);
        }
        match self.peeked_token {
            Some(t) => Ok(t),
            None => {
                let start = self.offset;
                let t = self.next_raw_token()?;
                self.peeked_token = Some(t);
                self.peek_start = start;
                Ok(t)
            },
        }
    }

    /// Takes the next token.
    pub(crate) fn next_token(&mut self) -> (r: Result<Token>)
        requires
            old(self).wf(),
        ensures
            final(self)@.offset >= old(self)@.offset,
            final(self).wf(),
            final(self)@.data == old(self)@.data,
            match step(old(self)@) {
                Ok((t, p, next)) => r == Ok::<Token, Error>(t) && final(self)@ == next,
                Err(e) => r matches Err(Error::BencodeDecode(x)) && x == e,
            },
    {
        proof {
            lemma_step_wf(self@);
        }
        let t = match self.peeked_token {
            Some(t) => {
                self.peeked_token = None;
                t
            },
            None => self.next_raw_token()?,
        };
        match t {
            Token::List | Token::Dict => {
                self.depth = self.depth + 1;
            },
            Token::End => {
                if self.depth > 0 {
                    self.depth = self.depth - 1;
                }
            },
            _ => {},
        }
        Ok(t)
    }

    /// Takes tokens until no more than `level` lists and dictionaries are open:
    /// what a cursor that was let go of early left unread.
    pub(crate) fn drain_to(&mut self, level: usize) -> (r: Result<()>)
        requires
            old(self).wf(),
        ensures
            final(self)@.offset >= old(self)@.offset,
            final(self).wf(),
            final(self)@.data == old(self)@.data,
            match drain(old(self)@, level as int) {
                Ok(s) => r == Ok::<(), Error>(()) && final(self)@ == s,
                Err(e) => r matches Err(Error::BencodeDecode(x)) && x == e,
            },
    {
        while self.depth > level
            invariant
                self.wf(),
                self@.data == old(self)@.data,
                self@.offset >= old(self)@.offset,
                drain(old(self)@, level as int) == drain(self@, level as int),
            decreases self@.data.len() - self@.offset, if self@.peeked is Some { 1int } else { 0int },
        {
            proof {
                lemma_step_wf(self@);
            }
            self.next_token()?;
        }
        Ok(())
    }

    /// Takes a token that must open a dictionary.
    pub fn expect_dict_begin(&mut self) -> (r: Result<()>)
        requires
            old(self).wf(),
        ensures
            final(self)@.offset >= old(self)@.offset,
            final(self).wf(),
            final(self)@.data == old(self)@.data,
            match step(old(self)@) {
                Ok((t, p, next)) => if t is Dict {
                    r == Ok::<(), Error>(()) && final(self)@ == next
                } else {
                    is_mismatch(r, p, Expected::Dict, t)
                },
                Err(e) => r matches Err(Error::BencodeDecode(x)) && x == e,
            },
    {
        let position = self.position();
        match self.next_token()? {
            Token::Dict => Ok(()),
            other => Err(Error::Mismatch(position, Expected::Dict, found(other))),
        }
    }

    /// Takes a token that must open a list.
    pub fn expect_list_begin(&mut self) -> (r: Result<()>)
        requires
            old(self).wf(),
        ensures
            final(self)@.offset >= old(self)@.offset,
            final(self).wf(),
            final(self)@.data == old(self)@.data,
            match step(old(self)@) {
                Ok((t, p, next)) => if t is List {
                    r == Ok::<(), Error>(()) && final(self)@ == next
                } else {
                    is_mismatch(r, p, Expected::List, t)
                },
                Err(e) => r matches Err(Error::BencodeDecode(x)) && x == e,
            },
    {
        let position = self.position();
        match self.next_token()? {
            Token::List => Ok(()),
            other => Err(Error::Mismatch(position, Expected::List, found(other))),
        }
    }

    /// Takes a token that must close a list or a dictionary.
    pub fn expect_end(&mut self) -> (r: Result<()>)
        requires
            old(self).wf(),
        ensures
            final(self)@.offset >= old(self)@.offset,
            final(self).wf(),
            final(self)@.data == old(self)@.data,
            match step(old(self)@) {
                Ok((t, p, next)) => if t is End {
                    r == Ok::<(), Error>(()) && final(self)@ == next
                } else {
                    is_mismatch(r, p, Expected::End, t)
                },
                Err(e) => r matches Err(Error::BencodeDecode(x)) && x == e,
            },
    {
        let position = self.position();
        match self.next_token()? {
            Token::End => Ok(()),
            other => Err(Error::Mismatch(position, Expected::End, found(other))),
        }
    }

    /// Takes an empty list: `l` then `e`.
    pub fn expect_empty_list(&mut self) -> (r: Result<()>)
        requires
            old(self).wf(),
        ensures
            final(self)@.offset >= old(self)@.offset,
            final(self).wf(),
            final(self)@.data == old(self)@.data,
            r is Ok <==> empty_list_next(old(self)@),
            r is Ok ==> final(self)@ == after_step(after_step(old(self)@)),
    {
        self.expect_list_begin()?;
        self.expect_end()?;
        Ok(())
    }

    /// Where the next token begins.
    pub fn position(&self) -> (r: usize)
        requires
            self.wf(),
        ensures
            r == self@.pos(),
    {
        match self.peeked_token {
            Some(_) => self.peek_start,
            None => self.offset,
        }
    }

    /// The position after everything scanned so far.
    pub(crate) fn offset(&self) -> (r: usize)
        ensures
            r == self@.offset,
    {
        self.offset
    }

    /// How many lists and dictionaries are open.
    pub(crate) fn depth(&self) -> (r: usize)
        requires
            self.wf(),
        ensures
            r == self@.depth,
    {
        self.depth
    }

    /// The bytes in `[start, end)` of the input.
    pub(crate) fn bytes_at(&self, start: usize, end: usize) -> (r: &'de [u8])
        requires
            self.wf(),
            start <= end <= self@.data.len(),
        ensures
            r@ == self@.data.subrange(start as int, end as int),
    {
        &self.data[start..end]
    }

    /// The text of the integer in `[start, end)` of the input.
    pub(crate) fn int_text_at(&self, start: usize, end: usize) -> (r: &'de str)
        requires
            self.wf(),
            start <= end <= self@.data.len(),
            is_int_body(self@.data.subrange(start as int, end as int)),
        ensures
            r.spec_bytes() == self@.data.subrange(start as int, end as int),
    {
        let b = &self.data[start..end];
        proof {
            lemma_int_text_utf8(b@);
        }
        match utf8_text(b) {
            Some(text) => text,
            None => {
                proof {
                    assert(false);
                }
                ""
            },
        }
    }
}

} // verus!