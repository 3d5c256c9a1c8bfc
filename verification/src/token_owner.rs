use vstd::prelude::*;

use crate::error::ReadError;
use crate::grammar;
use crate::grammar::CollectState;
use crate::token::{tokens_view, SpecToken, Token};
use crate::value::{values_view, IndexMap, Value};

verus! {

/// The lexical class of a peeked token, without its payload: what the tree
/// builder dispatches on.
#[derive(Clone, Copy, Debug, PartialEq)]
pub enum Kind {
    BeginObject,
    EndObject,
    BeginArray,
    EndArray,
    Colon,
    Comma,
    Str,
    Num,
    Bool,
    Null,
    Eof,
}

pub open spec fn spec_kind(t: SpecToken) -> Kind {
    match t {
        SpecToken::BeginObject => Kind::BeginObject,
        SpecToken::EndObject => Kind::EndObject,
        SpecToken::BeginArray => Kind::BeginArray,
        SpecToken::EndArray => Kind::EndArray,
        SpecToken::Colon => Kind::Colon,
        SpecToken::Comma => Kind::Comma,
        SpecToken::String(_) => Kind::Str,
        SpecToken::Number(_) => Kind::Num,
        SpecToken::Boolean(_) => Kind::Bool,
        SpecToken::Null => Kind::Null,
        SpecToken::Eof => Kind::Eof,
    }
}

pub fn kind_of(t: &Token) -> (k: Kind)
    ensures
        k == spec_kind(t@),
{
    match t {
        Token::BeginObject => Kind::BeginObject,
        Token::EndObject => Kind::EndObject,
        Token::BeginArray => Kind::BeginArray,
        Token::EndArray => Kind::EndArray,
        Token::Colon => Kind::Colon,
        Token::Comma => Kind::Comma,
        Token::String(_) => Kind::Str,
        Token::Number(_) => Kind::Num,
        Token::Boolean(_) => Kind::Bool,
        Token::Null => Kind::Null,
        Token::Eof => Kind::Eof,
    }
}

/// The take-ownership token stream: it owns the produced token sequence and
/// destructively yields tokens from the front, transferring ownership of any
/// payload to the caller exactly once.  The tree builder consumes a stream
/// of this shape.
pub struct TokenOwner {
    buffer: Vec<Token>,
}

impl TokenOwner {
    /// The tokens that are not yet consumed.
    pub closed spec fn remaining(&self) -> Seq<SpecToken> {
        tokens_view(self.buffer@)
    }

    pub fn new(tokens: Vec<Token>) -> (r: Self)
        ensures
            r.remaining() == tokens_view(tokens@),
    {
        TokenOwner { buffer: tokens }
    }

    /// The next unconsumed token, without advancing.
    pub fn peek(&self) -> (r: Result<&Token, ReadError>)
        ensures
            self.remaining().len() > 0 ==> (r matches Ok(t) && t@ == self.remaining()[0]),
            self.remaining().len() == 0 ==> (r matches Err(e) && e == ReadError::Eof),
    {
        if self.buffer.len() > 0 {
            Ok(&self.buffer[0])
        } else {
            Err(ReadError::Eof)
        }
    }

    /// The next unconsumed token, moved out of the buffer.
    pub fn next(&mut self) -> (r: Result<Token, ReadError>)
        ensures
            old(self).remaining().len() > 0 ==> (r matches Ok(t) && t@ == old(self).remaining()[0]
                && final(self).remaining() == old(self).remaining().skip(1)),
            old(self).remaining().len() == 0 ==> (r matches Err(e) && e == ReadError::Eof) && final(self).remaining() == old(self).remaining(),
    {
        if self.buffer.len() > 0 {
            let ghost buf0 = self.buffer@;
            let t = self.buffer.remove(0);
            proof {
                assert(tokens_view(self.buffer@) =~= tokens_view(buf0).skip(1));
            }
            Ok(t)
        } else {
            Err(ReadError::Eof)
        }
    }

    /// Whether another real token follows: the stream is not exhausted and
    /// the next token is not the explicit end-of-input marker.
    pub fn has_next(&self) -> (b: bool)
        ensures
            b == (self.remaining().len() > 0 && !(self.remaining()[0] is Eof)),
    {
        match self.peek() {
            Err(_) => false,
            Ok(t) => match t {
                Token::Eof => false,
                _ => true,
            },
        }
    }

    /// Build the single value the stream holds: one value parsed from the
    /// front, after which the stream must be exhausted — trailing tokens are
    /// a syntax error.
    pub fn parse(&mut self) -> (r: Result<Value, ReadError>)
        ensures
            match grammar::parse_tokens(old(self).remaining()) {
                Ok(sv) => r matches Ok(v) && v@ == sv,
                Err(e) => r matches Err(e2) && e2 == e,
            },
    {
        let val = self.build_value();
        match val {
            Ok(v) => {
                if self.has_next() {
                    Err(ReadError::IllegalSyntax)
                } else {
                    Ok(v)
                }
            },
            Err(e) => Err(e),
        }
    }

    /// One value, dispatched on the peeked token: scalars are consumed and
    /// wrapped directly, `{` and `[` start an aggregate; anything else, or
    /// end of input, is an error.
    pub fn build_value(&mut self) -> (r: Result<Value, ReadError>)
        ensures
            match grammar::parse_value(old(self).remaining()) {
                Ok(p) => r matches Ok(v) && v@ == p.0 && final(self).remaining() == p.1,
                Err(e) => r matches Err(e2) && e2 == e,
            },
        decreases self.remaining().len(), 3int,
    {
        let k = match self.peek() {
            Err(e) => {
                return Err(e);
            },
            Ok(t) => kind_of(t),
        };
        match k {
            Kind::BeginArray => self.build_array(),
            Kind::BeginObject => self.build_object(),
            Kind::Str | Kind::Num | Kind::Bool | Kind::Null => {
                match self.next() {
                    Ok(t) => match t {
                        Token::String(s) => Ok(Value::String(s)),
                        Token::Number(n) => Ok(Value::Number(n)),
                        Token::Boolean(b) => Ok(Value::Boolean(b)),
                        Token::Null => Ok(Value::Null),
                        _ => {
                            proof {
                                assert(false);
                            }
                            Err(ReadError::IllegalSyntax)
                        },
                    },
                    Err(e) => {
                        proof {
                            assert(false);
                        }
                        Err(e)
                    },
                }
            },
            _ => Err(ReadError::IllegalSyntax),
        }
    }

    /// The array loop: consumes `[`, then elements and commas alternate as
    /// the state demands until `]` closes the array.
    fn build_array(&mut self) -> (r: Result<Value, ReadError>)
        ensures
            old(self).remaining().len() == 0 ==> (r matches Err(e) && e == ReadError::Eof),
            old(self).remaining().len() > 0 && old(self).remaining()[0] is BeginArray ==> match grammar::parse_array_items(
                old(self).remaining().skip(1),
                Seq::empty(),
                CollectState::FirstOrEnd,
            ) {
                Ok(p) => r matches Ok(v) && v@ == crate::value::SpecValue::Array(p.0) && final(self).remaining() == p.1,
                Err(e) => r matches Err(e2) && e2 == e,
            },
            old(self).remaining().len() > 0 && !(old(self).remaining()[0] is BeginArray) ==> (
            r matches Err(e) && e == ReadError::IllegalSyntax),
        decreases self.remaining().len(), 2int,
    {
        match self.next() {
            Err(e) => {
                return Err(e);
            },
            Ok(t) => match t {
                Token::BeginArray => {},
                _ => {
                    return Err(ReadError::IllegalSyntax);
                },
            },
        }
        let ghost rem0 = old(self).remaining();
        let ghost items_start = self.remaining();
        let mut array: Vec<Value> = Vec::new();
        let mut state = CollectState::FirstOrEnd;
        proof {
            crate::value::lemma_values_view(array@);
            assert(values_view(array@) =~= Seq::<crate::value::SpecValue>::empty());
        }
        loop
            invariant
                old(self).remaining().len() > 0,
                old(self).remaining()[0] is BeginArray,
                items_start == old(self).remaining().skip(1),
                self.remaining().len() < old(self).remaining().len(),
                grammar::parse_array_items(items_start, Seq::empty(), CollectState::FirstOrEnd)
                    == grammar::parse_array_items(self.remaining(), values_view(array@), state),
            decreases self.remaining().len(),
        {
            let ghost rem_pre = self.remaining();
            let k = match self.peek() {
                Err(e) => {
                    return Err(e);
                },
                Ok(t) => kind_of(t),
            };
            match (k, state) {
                (Kind::EndArray, CollectState::FirstOrEnd)
                | (Kind::EndArray, CollectState::CommaOrEnd) => {
                    let _ = self.next();
                    return Ok(Value::JsonArray(array));
                },
                (Kind::Comma, CollectState::CommaOrEnd) => {
                    let _ = self.next();
                    state = CollectState::Next;
                },
                (Kind::BeginObject, CollectState::Next)
                | (Kind::BeginObject, CollectState::FirstOrEnd)
                | (Kind::BeginArray, CollectState::Next)
                | (Kind::BeginArray, CollectState::FirstOrEnd)
                | (Kind::Str, CollectState::Next)
                | (Kind::Str, CollectState::FirstOrEnd)
                | (Kind::Num, CollectState::Next)
                | (Kind::Num, CollectState::FirstOrEnd)
                | (Kind::Bool, CollectState::Next)
                | (Kind::Bool, CollectState::FirstOrEnd)
                | (Kind::Null, CollectState::Next)
                | (Kind::Null, CollectState::FirstOrEnd) => {
                    proof {
                        grammar::lemma_value_progress(rem_pre);
                    }
                    match self.build_value() {
                        Ok(v) => {
                            let ghost arr_pre = array@;
                            array.push(v);
                            proof {
                                crate::value::lemma_values_view_push(arr_pre, v);
                            }
                            state = CollectState::CommaOrEnd;
                        },
                        Err(e) => {
                            return Err(e);
                        },
                    }
                },
                _ => {
                    return Err(ReadError::IllegalSyntax);
                },
            }
        }
    }

    /// The object loop: consumes `{`, then pairs and commas alternate as the
    /// state demands until `}` closes the object.  Each pair is inserted
    /// into the mapping, so a repeated key overwrites its earlier value.
    fn build_object(&mut self) -> (r: Result<Value, ReadError>)
        ensures
            old(self).remaining().len() == 0 ==> (r matches Err(e) && e == ReadError::Eof),
            old(self).remaining().len() > 0 && old(self).remaining()[0] is BeginObject ==> match grammar::parse_object_items(
                old(self).remaining().skip(1),
                Seq::empty(),
                CollectState::FirstOrEnd,
            ) {
                Ok(p) => r matches Ok(v) && v@ == crate::value::SpecValue::Object(p.0) && final(self).remaining() == p.1,
                Err(e) => r matches Err(e2) && e2 == e,
            },
            old(self).remaining().len() > 0 && !(old(self).remaining()[0] is BeginObject) ==> (
            r matches Err(e) && e == ReadError::IllegalSyntax),
        decreases self.remaining().len(), 2int,
    {
        match self.next() {
            Err(e) => {
                return Err(e);
            },
            Ok(t) => match t {
                Token::BeginObject => {},
                _ => {
                    return Err(ReadError::IllegalSyntax);
                },
            },
        }
        let ghost items_start = self.remaining();
        let mut value = IndexMap::new();
        let mut state = CollectState::FirstOrEnd;
        loop
            invariant
                old(self).remaining().len() > 0,
                old(self).remaining()[0] is BeginObject,
                items_start == old(self).remaining().skip(1),
                self.remaining().len() < old(self).remaining().len(),
                grammar::parse_object_items(items_start, Seq::empty(), CollectState::FirstOrEnd)
                    == grammar::parse_object_items(self.remaining(), value@, state),
            decreases self.remaining().len(),
        {
            let ghost rem_pre = self.remaining();
            let k = match self.peek() {
                Err(e) => {
                    return Err(e);
                },
                Ok(t) => kind_of(t),
            };
            match (k, state) {
                (Kind::EndObject, CollectState::FirstOrEnd)
                | (Kind::EndObject, CollectState::CommaOrEnd) => {
                    let _ = self.next();
                    return Ok(Value::JsonObject(value));
                },
                (Kind::Comma, CollectState::CommaOrEnd) => {
                    let _ = self.next();
                    state = CollectState::Next;
                },
                (Kind::Str, CollectState::Next) | (Kind::Str, CollectState::FirstOrEnd) => {
                    proof {
                        grammar::lemma_pair_progress(rem_pre);
                    }
                    match self.build_pair() {
                        Ok((key, v)) => {
                            value.insert(key, v);
                            state = CollectState::CommaOrEnd;
                        },
                        Err(e) => {
                            return Err(e);
                        },
                    }
                },
                _ => {
                    return Err(ReadError::IllegalSyntax);
                },
            }
        }
    }

    /// A key/value pair: a string key, a colon, then the value.
    fn build_pair(&mut self) -> (r: Result<(String, Value), ReadError>)
        requires
            old(self).remaining().len() > 0,
            old(self).remaining()[0] is String,
        ensures
            match grammar::parse_pair(old(self).remaining()) {
                Ok(p) => r matches Ok(kv) && kv.0@ == p.0.0 && kv.1@ == p.0.1 && final(self).remaining() == p.1,
                Err(e) => r matches Err(e2) && e2 == e,
            },
        decreases self.remaining().len(), 1int,
    {
        let ghost rem0 = self.remaining();
        let key = match self.next() {
            Ok(t) => match t {
                Token::String(s) => s,
                _ => {
                    proof {
                        assert(false);
                    }
                    return Err(ReadError::IllegalSyntax);
                },
            },
            Err(e) => {
                proof {
                    assert(false);
                }
                return Err(e);
            },
        };
        match self.next() {
            Err(e) => {
                return Err(e);
            },
            Ok(t) => match t {
                Token::Colon => {},
                _ => {
                    return Err(ReadError::IllegalSyntax);
                },
            },
        }
        proof {
            assert(rem0.skip(1).skip(1) =~= rem0.skip(2));
        }
        match self.build_value() {
            Ok(v) => Ok((key, v)),
            Err(e) => Err(e),
        }
    }
}

} // verus!
