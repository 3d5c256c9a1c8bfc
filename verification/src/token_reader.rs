use vstd::prelude::*;

use crate::error::ReadError;
use crate::grammar;
use crate::grammar::CollectState;
use crate::token::{tokens_view, SpecToken, Token};
use crate::token_owner::{kind_of, Kind};
use crate::value::{values_view, IndexMap, Value};

verus! {

/// The borrowed token stream: a read-only view over a fully materialized
/// token sequence plus a read position.  `peek` and `next` hand out
/// references and never take ownership of a payload; the tree builder copies
/// the payloads it keeps.
pub struct TokenReader<'a> {
    buffer: &'a [Token],
    pos: usize,
}

impl<'a> TokenReader<'a> {
    /// The tokens that are not yet consumed.
    pub closed spec fn remaining(&self) -> Seq<SpecToken> {
        tokens_view(self.buffer@.skip(self.pos as int))
    }

    pub closed spec fn wf(&self) -> bool {
        self.pos <= self.buffer@.len()
    }

    pub fn new(tokens: &'a [Token]) -> (r: Self)
        ensures
            r.wf(),
            r.remaining() == tokens_view(tokens@),
    {
        let r = TokenReader { buffer: tokens, pos: 0 };
        proof {
            assert(r.buffer@.skip(0) =~= tokens@);
        }
        r
    }

    /// The next unconsumed token, without advancing.
    pub fn peek(&self) -> (r: Result<&'a Token, ReadError>)
        requires
            self.wf(),
        ensures
            self.remaining().len() > 0 ==> (r matches Ok(t) && t@ == self.remaining()[0]),
            self.remaining().len() == 0 ==> (r matches Err(e) && e == ReadError::Eof),
    {
        if self.pos < self.buffer.len() {
            Ok(&self.buffer[self.pos])
        } else {
            Err(ReadError::Eof)
        }
    }

    /// A reference to the next unconsumed token, advancing past it.
    pub fn next(&mut self) -> (r: Result<&'a Token, ReadError>)
        requires
            old(self).wf(),
        ensures
            final(self).wf(),
            old(self).remaining().len() > 0 ==> (r matches Ok(t) && t@ == old(self).remaining()[0]
                && final(self).remaining() == old(self).remaining().skip(1)),
            old(self).remaining().len() == 0 ==> (r matches Err(e) && e == ReadError::Eof) && final(self).remaining() == old(self).remaining(),
    {
        if self.pos < self.buffer.len() {
            let buf = self.buffer;
            let t = &buf[self.pos];
            self.pos = self.pos + 1;
            proof {
                assert(self.buffer@.skip(self.pos as int) =~= old(self).buffer@.skip(
                    old(self).pos as int,
                ).skip(1));
                assert(tokens_view(self.buffer@.skip(self.pos as int)) =~= tokens_view(
                    old(self).buffer@.skip(old(self).pos as int),
                ).skip(1));
            }
            Ok(t)
        } else {
            Err(ReadError::Eof)
        }
    }

    /// Whether another real token follows: the stream is not exhausted and
    /// the next token is not the explicit end-of-input marker.
    pub fn has_next(&self) -> (b: bool)
        requires
            self.wf(),
        ensures
            b == (self.remaining().len() > 0 && !(self.remaining()[0] is Eof)),
    {
        match self.peek() {
            Err(_) => false,
            Ok(t) => match t {
                Token::Eof => false,
                _ => true,
            },
        }
    }

    /// Build the single value the stream holds: one value parsed from the
    /// front, after which the stream must be exhausted — trailing tokens are
    /// a syntax error.
    pub fn parse(&mut self) -> (r: Result<Value, ReadError>)
        requires
            old(self).wf(),
        ensures
            final(self).wf(),
            match grammar::parse_tokens(old(self).remaining()) {
                Ok(sv) => r matches Ok(v) && v@ == sv,
                Err(e) => r matches Err(e2) && e2 == e,
            },
    {
        let val = self.build_value();
        match val {
            Ok(v) => {
                if self.has_next() {
                    Err(ReadError::IllegalSyntax)
                } else {
                    Ok(v)
                }
            },
            Err(e) => Err(e),
        }
    }

    /// One value, dispatched on the peeked token: scalar payloads are copied
    /// out of the borrowed sequence, `{` and `[` start an aggregate.
    pub fn build_value(&mut self) -> (r: Result<Value, ReadError>)
        requires
            old(self).wf(),
        ensures
            final(self).wf(),
            match grammar::parse_value(old(self).remaining()) {
                Ok(p) => r matches Ok(v) && v@ == p.0 && final(self).remaining() == p.1,
                Err(e) => r matches Err(e2) && e2 == e,
            },
        decreases self.remaining().len(), 3int,
    {
        let k = match self.peek() {
            Err(e) => {
                return Err(e);
            },
            Ok(t) => kind_of(t),
        };
        match k {
            Kind::BeginArray => self.build_array(),
            Kind::BeginObject => self.build_object(),
            Kind::Str | Kind::Num | Kind::Bool | Kind::Null => {
                match self.next() {
                    Ok(t) => match t {
                        Token::String(s) => Ok(Value::String(s.clone())),
                        Token::Number(n) => Ok(Value::Number(n.duplicate())),
                        Token::Boolean(b) => Ok(Value::Boolean(*b)),
                        Token::Null => Ok(Value::Null),
                        _ => {
                            proof {
                                assert(false);
                            }
                            Err(ReadError::IllegalSyntax)
                        },
                    },
                    Err(e) => {
                        proof {
                            assert(false);
                        }
                        Err(e)
                    },
                }
            },
            _ => Err(ReadError::IllegalSyntax),
        }
    }

    /// The array loop: consumes `[`, then elements and commas alternate as
    /// the state demands until `]` closes the array.
    fn build_array(&mut self) -> (r: Result<Value, ReadError>)
        requires
            old(self).wf(),
        ensures
            final(self).wf(),
            old(self).remaining().len() == 0 ==> (r matches Err(e) && e == ReadError::Eof),
            old(self).remaining().len() > 0 && old(self).remaining()[0] is BeginArray ==> match grammar::parse_array_items(
                old(self).remaining().skip(1),
                Seq::empty(),
                CollectState::FirstOrEnd,
            ) {
                Ok(p) => r matches Ok(v) && v@ == crate::value::SpecValue::Array(p.0) && final(self).remaining() == p.1,
                Err(e) => r matches Err(e2) && e2 == e,
            },
            old(self).remaining().len() > 0 && !(old(self).remaining()[0] is BeginArray) ==> (
            r matches Err(e) && e == ReadError::IllegalSyntax),
        decreases self.remaining().len(), 2int,
    {
        match self.next() {
            Err(e) => {
                return Err(e);
            },
            Ok(t) => match t {
                Token::BeginArray => {},
                _ => {
                    return Err(ReadError::IllegalSyntax);
                },
            },
        }
        let ghost items_start = self.remaining();
        let mut array: Vec<Value> = Vec::new();
        let mut state = CollectState::FirstOrEnd;
        proof {
            crate::value::lemma_values_view(array@);
            assert(values_view(array@) =~= Seq::<crate::value::SpecValue>::empty());
        }
        loop
            invariant
                self.wf(),
                old(self).remaining().len() > 0,
                old(self).remaining()[0] is BeginArray,
                items_start == old(self).remaining().skip(1),
                self.remaining().len() < old(self).remaining().len(),
                grammar::parse_array_items(items_start, Seq::empty(), CollectState::FirstOrEnd)
                    == grammar::parse_array_items(self.remaining(), values_view(array@), state),
            decreases self.remaining().len(),
        {
            let ghost rem_pre = self.remaining();
            let k = match self.peek() {
                Err(e) => {
                    return Err(e);
                },
                Ok(t) => kind_of(t),
            };
            match (k, state) {
                (Kind::EndArray, CollectState::FirstOrEnd)
                | (Kind::EndArray, CollectState::CommaOrEnd) => {
                    let _ = self.next();
                    return Ok(Value::JsonArray(array));
                },
                (Kind::Comma, CollectState::CommaOrEnd) => {
                    let _ = self.next();
                    state = CollectState::Next;
                },
                (Kind::BeginObject, CollectState::Next)
                | (Kind::BeginObject, CollectState::FirstOrEnd)
                | (Kind::BeginArray, CollectState::Next)
                | (Kind::BeginArray, CollectState::FirstOrEnd)
                | (Kind::Str, CollectState::Next)
                | (Kind::Str, CollectState::FirstOrEnd)
                | (Kind::Num, CollectState::Next)
                | (Kind::Num, CollectState::FirstOrEnd)
                | (Kind::Bool, CollectState::Next)
                | (Kind::Bool, CollectState::FirstOrEnd)
                | (Kind::Null, CollectState::Next)
                | (Kind::Null, CollectState::FirstOrEnd) => {
                    proof {
                        grammar::lemma_value_progress(rem_pre);
                    }
                    match self.build_value() {
                        Ok(v) => {
                            let ghost arr_pre = array@;
                            array.push(v);
                            proof {
                                crate::value::lemma_values_view_push(arr_pre, v);
                            }
                            state = CollectState::CommaOrEnd;
                        },
                        Err(e) => {
                            return Err(e);
                        },
                    }
                },
                _ => {
                    return Err(ReadError::IllegalSyntax);
                },
            }
        }
    }

    /// The object loop: consumes `{`, then pairs and commas alternate as the
    /// state demands until `}` closes the object.  Each pair is inserted
    /// into the mapping, so a repeated key overwrites its earlier value.
    fn build_object(&mut self) -> (r: Result<Value, ReadError>)
        requires
            old(self).wf(),
        ensures
            final(self).wf(),
            old(self).remaining().len() == 0 ==> (r matches Err(e) && e == ReadError::Eof),
            old(self).remaining().len() > 0 && old(self).remaining()[0] is BeginObject ==> match grammar::parse_object_items(
                old(self).remaining().skip(1),
                Seq::empty(),
                CollectState::FirstOrEnd,
            ) {
                Ok(p) => r matches Ok(v) && v@ == crate::value::SpecValue::Object(p.0) && final(self).remaining() == p.1,
                Err(e) => r matches Err(e2) && e2 == e,
            },
            old(self).remaining().len() > 0 && !(old(self).remaining()[0] is BeginObject) ==> (
            r matches Err(e) && e == ReadError::IllegalSyntax),
        decreases self.remaining().len(), 2int,
    {
        match self.next() {
            Err(e) => {
                return Err(e);
            },
            Ok(t) => match t {
                Token::BeginObject => {},
                _ => {
                    return Err(ReadError::IllegalSyntax);
                },
            },
        }
        let ghost items_start = self.remaining();
        let mut value = IndexMap::new();
        let mut state = CollectState::FirstOrEnd;
        loop
            invariant
                self.wf(),
                old(self).remaining().len() > 0,
                old(self).remaining()[0] is BeginObject,
                items_start == old(self).remaining().skip(1),
                self.remaining().len() < old(self).remaining().len(),
                grammar::parse_object_items(items_start, Seq::empty(), CollectState::FirstOrEnd)
                    == grammar::parse_object_items(self.remaining(), value@, state),
            decreases self.remaining().len(),
        {
            let ghost rem_pre = self.remaining();
            let k = match self.peek() {
                Err(e) => {
                    return Err(e);
                },
                Ok(t) => kind_of(t),
            };
            match (k, state) {
                (Kind::EndObject, CollectState::FirstOrEnd)
                | (Kind::EndObject, CollectState::CommaOrEnd) => {
                    let _ = self.next();
                    return Ok(Value::JsonObject(value));
                },
                (Kind::Comma, CollectState::CommaOrEnd) => {
                    let _ = self.next();
                    state = CollectState::Next;
                },
                (Kind::Str, CollectState::Next) | (Kind::Str, CollectState::FirstOrEnd) => {
                    proof {
                        grammar::lemma_pair_progress(rem_pre);
                    }
                    match self.build_pair() {
                        Ok((key, v)) => {
                            value.insert(key, v);
                            state = CollectState::CommaOrEnd;
                        },
                        Err(e) => {
                            return Err(e);
                        },
                    }
                },
                _ => {
                    return Err(ReadError::IllegalSyntax);
                },
            }
        }
    }

    /// A key/value pair: a string key, a colon, then the value.  The key is
    /// copied out of the borrowed sequence.
    fn build_pair(&mut self) -> (r: Result<(String, Value), ReadError>)
        requires
            old(self).wf(),
            old(self).remaining().len() > 0,
            old(self).remaining()[0] is String,
        ensures
            final(self).wf(),
            match grammar::parse_pair(old(self).remaining()) {
                Ok(p) => r matches Ok(kv) && kv.0@ == p.0.0 && kv.1@ == p.0.1 && final(self).remaining() == p.1,
                Err(e) => r matches Err(e2) && e2 == e,
            },
        decreases self.remaining().len(), 1int,
    {
        let ghost rem0 = self.remaining();
        let key = match self.next() {
            Ok(t) => match t {
                Token::String(s) => s.clone(),
                _ => {
                    proof {
                        assert(false);
                    }
                    return Err(ReadError::IllegalSyntax);
                },
            },
            Err(e) => {
                proof {
                    assert(false);
                }
                return Err(e);
            },
        };
        match self.next() {
            Err(e) => {
                return Err(e);
            },
            Ok(t) => match t {
                Token::Colon => {},
                _ => {
                    return Err(ReadError::IllegalSyntax);
                },
            },
        }
        proof {
            assert(rem0.skip(1).skip(1) =~= rem0.skip(2));
        }
        match self.build_value() {
            Ok(v) => Ok((key, v)),
            Err(e) => Err(e),
        }
    }
}

} // verus!
