//! Values pulled one at a time from a parser, and lazy cursors over lists and
//! dictionaries that share the parser's read position.
use vstd::prelude::*;
use vstd::string::StringSliceAdditionalSpecFns;

use crate::error::{found, is_mismatch, Error, Expected, Result};
use crate::grammar::lemma_scan_advances;
use crate::parser::{after_step, drain, lemma_step_wf, step, BencodeParser, ParserState};
use crate::token::Token;

verus! {

/// One value of the input: an integer or a byte string as its raw bytes, or a
/// cursor over a list or a dictionary.
pub enum Object<'obj, 'de: 'obj> {
    Int(&'de str),
    Bytes(&'de [u8]),
    Dict(DictDecoder<'obj, 'de>),
    List(ListDecoder<'obj, 'de>),
}

/// `o` is the value that token `t`, which began at `p`, starts, with the
/// parser in state `s` after the token.
pub open spec fn object_is<'obj, 'de>(o: Object<'obj, 'de>, t: Token, p: int, s: ParserState) -> bool {
    match t {
        Token::Num(a, b) => o matches Object::Int(x) && x.spec_bytes() == s.data.subrange(a as int, b as int),
        Token::String(a, b) => o matches Object::Bytes(x) && x@ == s.data.subrange(a as int, b as int),
        Token::List => o matches Object::List(d) && d.state() == s && d.level() == s.depth && d.start()
            == p && !d.is_finished(),
        Token::Dict => o matches Object::Dict(d) && d.state() == s && d.level() == s.depth && d.start()
            == p && !d.is_finished(),
        Token::End => false,
    }
}

/// What reading one value from state `s` gives: the value that the next token
/// starts, `None` at a closing token, or the grammar error met.
pub open spec fn read_is<'obj, 'de>(r: Result<Option<Object<'obj, 'de>>>, s: ParserState) -> bool {
    match step(s) {
        Err(e) => r matches Err(Error::BencodeDecode(x)) && x == e,
        Ok((t, p, next)) => if t is End {
            r matches Ok(None)
        } else {
            r matches Ok(Some(o)) && object_is(o, t, p, next)
        },
    }
}

/// Takes the next token and builds the value it starts; `None` at a closing
/// token.
fn read_object<'obj, 'de>(parser: &'obj mut BencodeParser<'de>) -> (r: Result<Option<Object<'obj, 'de>>>)
    requires
        old(parser).wf(),
    ensures
        read_is(r, old(parser)@),
        r is Err ==> final(parser).wf() && final(parser)@.data == old(parser)@.data && final(parser)@.offset
            >= old(parser)@.offset,
        r matches Ok(Some(Object::List(d))) ==> *final(parser) == *final(d.parser()),
        r matches Ok(Some(Object::Dict(d))) ==> *final(parser) == *final(d.parser()),
        r is Ok && !(r matches Ok(Some(o)) && (o is List || o is Dict)) ==> final(parser)@
            == after_step(old(parser)@) && final(parser).wf(),
{
    proof {
        lemma_step_wf(parser@);
        if let Ok((t, p, next)) = step(parser@) {
            lemma_scan_advances(parser@.data, p);
        }
    }
    let p = parser.position();
    let t = parser.next_token()?;
    match t {
        Token::End => Ok(None),
        Token::Num(a, b) => Ok(Some(Object::Int(parser.int_text_at(a, b)))),
        Token::String(a, b) => Ok(Some(Object::Bytes(parser.bytes_at(a, b)))),
        Token::List => Ok(Some(Object::List(ListDecoder::new(parser, p)))),
        Token::Dict => Ok(Some(Object::Dict(DictDecoder::new(parser, p)))),
    }
}

impl<'obj, 'de: 'obj> Object<'obj, 'de> {
    /// Lets go of this value. What a cursor leaves unread is read by the next
    /// read of the cursor or parser it came from.
    pub fn release(self)
        ensures
            self matches Object::List(d) ==> *final(d.parser()) == *d.parser(),
            self matches Object::Dict(d) ==> *final(d.parser()) == *d.parser(),
    {
    }

    /// The bytes of a byte string; `None` for any other value.
    pub fn unwrap_bytes(self) -> (r: Option<&'de [u8]>)
        ensures
            self matches Object::Bytes(b) ==> r == Some(b),
            !(self is Bytes) ==> r is None,
    {
        match self {
            Object::Bytes(bytes) => Some(bytes),
            _ => None,
        }
    }
}

/// The state `s` drained to `level`, where that succeeds.
pub open spec fn drained(s: ParserState, level: int) -> ParserState {
    match drain(s, level) {
        Ok(next) => next,
        Err(_) => s,
    }
}

/// The state after two tokens of `s`: a key and the token its value starts with.
pub open spec fn after_pair(s: ParserState) -> ParserState {
    after_step(after_step(s))
}

/// Where a cursor at `level` stands once it has found its end, reading from
/// state `s`: past its closing `e`, or where draining left it when its end was
/// already taken.
pub open spec fn end_state(s: ParserState, level: int) -> ParserState {
    let d = drained(s, level);
    if d.depth < level {
        d
    } else {
        after_step(d)
    }
}

/// A cursor over the items of one list.
pub struct ListDecoder<'obj, 'de: 'obj> {
    parser: &'obj mut BencodeParser<'de>,
    finished: bool,
    start_point: usize,
    level: usize,
}

impl<'obj, 'de: 'obj> ListDecoder<'obj, 'de> {
    /// The parser this cursor reads from.
    pub closed spec fn parser(&self) -> &'obj mut BencodeParser<'de> {
        self.parser
    }

    /// The state of that parser.
    pub open spec fn state(&self) -> ParserState {
        (*self.parser())@
    }

    /// Where the list's `l` stands in the input.
    pub closed spec fn start(&self) -> int {
        self.start_point as int
    }

    /// The depth of the list's items: the depth just after its `l`.
    pub closed spec fn level(&self) -> int {
        self.level as int
    }

    /// The list's closing `e` has been taken.
    pub closed spec fn is_finished(&self) -> bool {
        self.finished
    }

    pub open spec fn wf(&self) -> bool {
        &&& self.state().wf()
        &&& 1 <= self.level()
        &&& 0 <= self.start() < self.state().offset
    }

    pub(crate) fn new(parser: &'obj mut BencodeParser<'de>, start_point: usize) -> (r: Self)
        requires
            old(parser).wf(),
            old(parser)@.depth >= 1,
            start_point < old(parser)@.offset,
        ensures
            *final(parser) == *final(r.parser()),
            r.state() == old(parser)@,
            r.level() == old(parser)@.depth,
            r.start() == start_point,
            !r.is_finished(),
            r.wf(),
    {
        let level = parser.depth();
        ListDecoder { parser, finished: false, start_point, level }
    }

    /// The next item of the list, or `None` once its end has been read. Items
    /// of an earlier item that was let go of unread are skipped first.
    pub fn next_object<'item>(&'item mut self) -> (r: Result<Option<Object<'item, 'de>>>)
        requires
            old(self).wf(),
        ensures
            final(self).level() == old(self).level(),
            final(self).start() == old(self).start(),
            *final(final(self).parser()) == *final(old(self).parser()),
            old(self).is_finished() ==> (r matches Ok(None)) && *final(self) == *old(self),
            !old(self).is_finished() ==> match drain(old(self).state(), old(self).level()) {
                Err(e) => r matches Err(Error::BencodeDecode(x)) && x == e,
                Ok(s) => if s.depth < old(self).level() {
                    r matches Ok(None)
                } else {
                    read_is(r, s)
                },
            },
            r matches Ok(Some(Object::List(d))) ==> *final(self).parser() == *final(d.parser()),
            r matches Ok(Some(Object::Dict(d))) ==> *final(self).parser() == *final(d.parser()),
            r matches Ok(Some(_)) ==> !final(self).is_finished(),
            !old(self).is_finished() && (r matches Ok(None)) ==> final(self).state() == end_state(
                old(self).state(),
                old(self).level(),
            ),
            r matches Ok(Some(o)) && !(o is List || o is Dict) ==> final(self).state() == after_step(
                drained(old(self).state(), old(self).level()),
            ),
            !(r matches Ok(Some(o)) && (o is List || o is Dict)) ==> {
                &&& final(self).wf()
                &&& final(self).state().data == old(self).state().data
                &&& final(self).state().offset >= old(self).state().offset
                &&& (r matches Ok(None) <==> final(self).is_finished())
            },
    {
        if self.finished {
            return Ok(None);
        }
        self.parser.drain_to(self.level)?;
        if self.parser.depth() < self.level {
            self.finished = true;
            return Ok(None);
        }
        proof {
            lemma_step_wf(self.parser@);
        }
        let item = read_object(&mut *self.parser);
        if let Ok(None) = item {
            self.finished = true;
        }
        item
    }

    /// The exact bytes of this list in the input, from its `l` through its
    /// closing `e`: what is left unread of it is read first.
    pub fn into_raw_bytes(self) -> (r: Result<&'de [u8]>)
        requires
            self.wf(),
        ensures
            match drain(self.state(), self.level() - 1) {
                Err(e) => r matches Err(Error::BencodeDecode(x)) && x == e,
                Ok(s) => r matches Ok(b) && b@ == s.data.subrange(self.start(), s.offset) && (*final(self.parser()))@ == s,
            },
            (*final(self.parser())).wf(),
            (*final(self.parser()))@.data == self.state().data,
            (*final(self.parser()))@.offset >= self.state().offset,
    {
        self.parser.drain_to(self.level - 1)?;
        let end = self.parser.offset();
        Ok(self.parser.bytes_at(self.start_point, end))
    }
}

/// What reading one pair from state `s` gives: `None` at the closing token;
/// a key with the value that follows it; or the error met.
pub open spec fn pair_is<'obj, 'de>(r: Result<Option<(&'de [u8], Object<'obj, 'de>)>>, s: ParserState) -> bool {
    match step(s) {
        Err(e) => r matches Err(Error::BencodeDecode(x)) && x == e,
        Ok((t, p, s1)) => match t {
            Token::End => r matches Ok(None),
            Token::String(a, b) => match step(s1) {
                Err(e) => r matches Err(Error::BencodeDecode(x)) && x == e,
                Ok((t2, p2, s2)) => if t2 is End {
                    r matches Err(Error::BencodeDecode(x)) && x == p2
                } else {
                    r matches Ok(Some((k, o))) && k@ == s.data.subrange(a as int, b as int) && object_is(
                        o,
                        t2,
                        p2,
                        s2,
                    )
                },
            },
            _ => is_mismatch(r, p, Expected::Bytes, t),
        },
    }
}

/// A cursor over the key/value pairs of one dictionary.
pub struct DictDecoder<'obj, 'de: 'obj> {
    parser: &'obj mut BencodeParser<'de>,
    finished: bool,
    start_point: usize,
    level: usize,
}

impl<'obj, 'de: 'obj> DictDecoder<'obj, 'de> {
    /// The parser this cursor reads from.
    pub closed spec fn parser(&self) -> &'obj mut BencodeParser<'de> {
        self.parser
    }

    /// The state of that parser.
    pub open spec fn state(&self) -> ParserState {
        (*self.parser())@
    }

    /// Where the dictionary's `d` stands in the input.
    pub closed spec fn start(&self) -> int {
        self.start_point as int
    }

    /// The depth of the dictionary's keys and values: the depth just after its `d`.
    pub closed spec fn level(&self) -> int {
        self.level as int
    }

    /// The dictionary's closing `e` has been taken.
    pub closed spec fn is_finished(&self) -> bool {
        self.finished
    }

    pub open spec fn wf(&self) -> bool {
        &&& self.state().wf()
        &&& 1 <= self.level()
        &&& 0 <= self.start() < self.state().offset
    }

    /// Where the next token of the dictionary's parser begins.
    pub fn position(&self) -> (r: usize)
        requires
            self.wf(),
        ensures
            r == self.state().pos(),
    {
        self.parser.position()
    }

    pub(crate) fn new(parser: &'obj mut BencodeParser<'de>, start_point: usize) -> (r: Self)
        requires
            old(parser).wf(),
            old(parser)@.depth >= 1,
            start_point < old(parser)@.offset,
        ensures
            *final(parser) == *final(r.parser()),
            r.state() == old(parser)@,
            r.level() == old(parser)@.depth,
            r.start() == start_point,
            !r.is_finished(),
            r.wf(),
    {
        let level = parser.depth();
        DictDecoder { parser, finished: false, start_point, level }
    }

    /// The next key and its value, or `None` once the dictionary's end has been
    /// read. A key must be a byte string and must be followed by a value. Pairs
    /// of an earlier value that was let go of unread are skipped first.
    pub fn next_pair<'item>(&'item mut self) -> (r: Result<Option<(&'de [u8], Object<'item, 'de>)>>)
        requires
            old(self).wf(),
        ensures
            final(self).level() == old(self).level(),
            final(self).start() == old(self).start(),
            *final(final(self).parser()) == *final(old(self).parser()),
            old(self).is_finished() ==> (r matches Ok(None)) && *final(self) == *old(self),
            !old(self).is_finished() ==> match drain(old(self).state(), old(self).level()) {
                Err(e) => r matches Err(Error::BencodeDecode(x)) && x == e,
                Ok(s) => if s.depth < old(self).level() {
                    r matches Ok(None)
                } else {
                    pair_is(r, s)
                },
            },
            r matches Ok(Some((_, Object::List(d)))) ==> *final(self).parser() == *final(d.parser()),
            r matches Ok(Some((_, Object::Dict(d)))) ==> *final(self).parser() == *final(d.parser()),
            r matches Ok(Some(_)) ==> !final(self).is_finished(),
            !old(self).is_finished() && (r matches Ok(None)) ==> final(self).state() == end_state(
                old(self).state(),
                old(self).level(),
            ),
            r matches Ok(Some((_, o))) && !(o is List || o is Dict) ==> final(self).state() == after_pair(
                drained(old(self).state(), old(self).level()),
            ),
            !(r matches Ok(Some((_, o))) && (o is List || o is Dict)) ==> {
                &&& final(self).wf()
                &&& final(self).state().data == old(self).state().data
                &&& final(self).state().offset >= old(self).state().offset
                &&& (r matches Ok(None) <==> final(self).is_finished())
            },
    {
        if self.finished {
            return Ok(None);
        }
        self.parser.drain_to(self.level)?;
        if self.parser.depth() < self.level {
            self.finished = true;
            return Ok(None);
        }
        proof {
            lemma_step_wf(self.parser@);
        }
        let key_pos = self.parser.position();
        match self.parser.next_token()? {
            Token::End => {
                self.finished = true;
                Ok(None)
            },
            Token::String(a, b) => {
                let key = self.parser.bytes_at(a, b);
                let value_pos = self.parser.position();
                proof {
                    lemma_step_wf(self.parser@);
                }
                match read_object(&mut *self.parser)? {
                    Some(value) => Ok(Some((key, value))),
                    None => Err(Error::BencodeDecode(value_pos)),
                }
            },
            other => Err(Error::Mismatch(key_pos, Expected::Bytes, found(other))),
        }
    }

    /// The exact bytes of this dictionary in the input, from its `d` through its
    /// closing `e`: what is left unread of it is read first.
    pub fn into_raw_bytes(self) -> (r: Result<&'de [u8]>)
        requires
            self.wf(),
        ensures
            match drain(self.state(), self.level() - 1) {
                Err(e) => r matches Err(Error::BencodeDecode(x)) && x == e,
                Ok(s) => r matches Ok(b) && b@ == s.data.subrange(self.start(), s.offset) && (*final(self.parser()))@ == s,
            },
            (*final(self.parser())).wf(),
            (*final(self.parser()))@.data == self.state().data,
            (*final(self.parser()))@.offset >= self.state().offset,
    {
        self.parser.drain_to(self.level - 1)?;
        let end = self.parser.offset();
        Ok(self.parser.bytes_at(self.start_point, end))
    }
}

impl<'de> BencodeParser<'de> {
    /// Reads the next value at the top level: what a cursor that was let go of
    /// left unread is read first. `None` at a stray closing `e`.
    pub fn parse<'obj>(&'obj mut self) -> (r: Result<Option<Object<'obj, 'de>>>)
        requires
            old(self).wf(),
        ensures
            match drain(old(self)@, 0) {
                Err(e) => r matches Err(Error::BencodeDecode(x)) && x == e,
                Ok(s) => read_is(r, s),
            },
            r matches Ok(Some(Object::List(d))) ==> *final(self) == *final(d.parser()),
            r matches Ok(Some(Object::Dict(d))) ==> *final(self) == *final(d.parser()),
            !(r matches Ok(Some(o)) && (o is List || o is Dict)) ==> {
                &&& final(self).wf()
                &&& final(self)@.data == old(self)@.data
                &&& final(self)@.offset >= old(self)@.offset
            },
            r is Ok && !(r matches Ok(Some(o)) && (o is List || o is Dict)) ==> final(self)@ == after_step(
                drained(old(self)@, 0),
            ),
    {
        self.drain_to(0)?;
        proof {
            lemma_step_wf(self@);
        }
        read_object(self)
    }
}

} // verus!
