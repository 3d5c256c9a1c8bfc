use vstd::prelude::*;

use crate::byte_tokenizer::ByteTokenizer;
use crate::codec;
use crate::char_tokenizer::CharTokenizer;
use crate::error::ReadError;
use crate::grammar;
use crate::lex;
use crate::multi_tokenizer::{spec_multi_tokens, MultiTokenizer};
use crate::token_owner::TokenOwner;
use crate::token_reader::TokenReader;
use crate::value::{SpecValue, Value};

verus! {

/// The whole sharded decode: the parallel lexical pass over `n` shards,
/// then the tree builder.
pub open spec fn decode_sharded(s: Seq<char>, n: int) -> Result<SpecValue, ReadError> {
    match spec_multi_tokens(s, n) {
        Ok(ts) => grammar::parse_tokens(ts),
        Err(e) => Err(e),
    }
}

/// Decode a document with the codepoint tokenizer and the owned token
/// buffer.
pub fn parse_str(json: &str) -> (r: Result<Value, ReadError>)
    ensures
        match grammar::decode(json@) {
            Ok(sv) => r matches Ok(v) && v@ == sv,
            Err(e) => r matches Err(e2) && e2 == e,
        },
{
    let mut t = CharTokenizer::new(json);
    let tokens = match t.read_tokens() {
        Ok(ts) => ts,
        Err(e) => {
            return Err(e);
        },
    };
    let mut owner = TokenOwner::new(tokens);
    owner.parse()
}

/// Decode a document with the codepoint tokenizer and the owned token
/// buffer.
pub fn parse_str_owner_char(json: &str) -> (r: Result<Value, ReadError>)
    ensures
        match grammar::decode(json@) {
            Ok(sv) => r matches Ok(v) && v@ == sv,
            Err(e) => r matches Err(e2) && e2 == e,
        },
{
    parse_str(json)
}

/// Decode a document with the codepoint tokenizer and the borrowed token
/// view.
pub fn parse_str_stream_char(json: &str) -> (r: Result<Value, ReadError>)
    ensures
        match grammar::decode(json@) {
            Ok(sv) => r matches Ok(v) && v@ == sv,
            Err(e) => r matches Err(e2) && e2 == e,
        },
{
    let mut t = CharTokenizer::new(json);
    let tokens = match t.read_tokens() {
        Ok(ts) => ts,
        Err(e) => {
            return Err(e);
        },
    };
    let mut reader = TokenReader::new(tokens.as_slice());
    reader.parse()
}

/// Decode a document with the sharded tokenizer (four shards) and the owned
/// token buffer.
pub fn parse_str_multi_char(json: &str) -> (r: Result<Value, ReadError>)
    ensures
        match decode_sharded(json@, 4) {
            Ok(sv) => r matches Ok(v) && v@ == sv,
            Err(e) => r matches Err(e2) && e2 == e,
        },
{
    let t = MultiTokenizer::new(json);
    let tokens = match t.read_tokens() {
        Ok(ts) => ts,
        Err(e) => {
            return Err(e);
        },
    };
    let mut owner = TokenOwner::new(tokens);
    owner.parse()
}

/// Decode a document with the sharded tokenizer (four shards) and the owned
/// token buffer.
pub fn parse_multi_thread(json: &str) -> (r: Result<Value, ReadError>)
    ensures
        match decode_sharded(json@, 4) {
            Ok(sv) => r matches Ok(v) && v@ == sv,
            Err(e) => r matches Err(e2) && e2 == e,
        },
{
    parse_str_multi_char(json)
}

impl<'a> ByteTokenizer<'a> {
    /// Decode the whole input of this tokenizer: tokenize, then build the
    /// tree from an owned token buffer.
    pub fn parse_once(self) -> (r: Result<Value, ReadError>)
        requires
            self.wf(),
        ensures
            match grammar::decode_bytes(self.remaining()) {
                Ok(sv) => r matches Ok(v) && v@ == sv,
                Err(e) => r matches Err(e2) && e2 == e,
            },
    {
        let mut me = self;
        let tokens = match me.read_tokens() {
            Ok(ts) => ts,
            Err(e) => {
                return Err(e);
            },
        };
        let mut owner = TokenOwner::new(tokens);
        owner.parse()
    }
}

impl CharTokenizer {
    /// Decode the whole input of this tokenizer: tokenize, then build the
    /// tree through the borrowed token view.
    pub fn parse(&mut self) -> (r: Result<Value, ReadError>)
        requires
            old(self).wf(),
        ensures
            final(self).wf(),
            match grammar::decode(old(self).remaining()) {
                Ok(sv) => r matches Ok(v) && v@ == sv,
                Err(e) => r matches Err(e2) && e2 == e,
            },
    {
        let tokens = match self.read_tokens() {
            Ok(ts) => ts,
            Err(e) => {
                return Err(e);
            },
        };
        let mut reader = TokenReader::new(tokens.as_slice());
        reader.parse()
    }

    /// Decode the whole input of this tokenizer: tokenize, then build the
    /// tree from an owned token buffer.
    pub fn parse_once(self) -> (r: Result<Value, ReadError>)
        requires
            self.wf(),
        ensures
            match grammar::decode(self.remaining()) {
                Ok(sv) => r matches Ok(v) && v@ == sv,
                Err(e) => r matches Err(e2) && e2 == e,
            },
    {
        let mut me = self;
        let tokens = match me.read_tokens() {
            Ok(ts) => ts,
            Err(e) => {
                return Err(e);
            },
        };
        let mut owner = TokenOwner::new(tokens);
        owner.parse()
    }
}

/// Decoding is a function of the input alone: two successful decodes of the
/// same input yield the same tree.  Together with the contracts of the
/// decoding functions, two runs over one document give structurally equal,
/// independently built trees.
pub proof fn lemma_decode_idempotent(s: Seq<char>, v1: SpecValue, v2: SpecValue)
    requires
        grammar::decode(s) == Ok::<SpecValue, ReadError>(v1),
        grammar::decode(s) == Ok::<SpecValue, ReadError>(v2),
    ensures
        v1 == v2,
{
}

/// A character inside the ASCII range.
pub open spec fn is_ascii_char(c: char) -> bool {
    (c as int) < 128
}

/// The bytes that encode an all-ASCII character sequence.
pub open spec fn encode_ascii(s: Seq<char>) -> Seq<u8> {
    Seq::new(s.len(), |i: int| s[i] as u8)
}

/// A codepoint-decode outcome as the byte-oriented pass would report it: an
/// unusable dispatch character becomes the byte that encodes it.
pub open spec fn as_byte_outcome(r: Result<SpecValue, ReadError>) -> Result<SpecValue, ReadError> {
    match r {
        Ok(v) => Ok(v),
        Err(e) => Err(lex::to_byte_err(e)),
    }
}

proof fn lemma_ascii_roundtrip(c: char)
    requires
        (c as int) < 128,
    ensures
        (c as u8) as char == c,
{
}

/// On input whose characters are all ASCII, the byte-oriented decode of the
/// encoded bytes agrees with the codepoint decode of the characters: the
/// same tree on success, the same error otherwise (with an unusable
/// dispatch character reported as the byte that encodes it).
pub proof fn lemma_byte_char_agree(s: Seq<char>)
    requires
        forall|i: int| 0 <= i < s.len() ==> is_ascii_char(#[trigger] s[i]),
    ensures
        grammar::decode_bytes(encode_ascii(s)) == as_byte_outcome(grammar::decode(s)),
{
    let b = encode_ascii(s);
    assert(b.len() == s.len());
    assert(lex::latin1(b).len() == s.len());
    assert forall|i: int| 0 <= i < s.len() implies lex::latin1(b)[i] == s[i] by {
        assert(is_ascii_char(s[i]));
        lemma_ascii_roundtrip(s[i]);
        assert(b[i] == s[i] as u8);
        assert(lex::latin1(b)[i] == b[i] as char);
    }
    assert(lex::latin1(b) =~= s);
    match lex::tokens_from(s) {
        Ok(ts) => {
            grammar::lemma_value_err(ts);
        },
        Err(_) => {},
    }
}

/// Agreement of the sharded and the single-threaded decode: whenever the
/// sharded decode reaches a verdict — a tree or any error other than a
/// partition error — it is the very verdict of the single-threaded decode.
/// (The splitter is conservative: on some inputs it reports a partition
/// error where the single pass succeeds; it never disagrees otherwise.)
pub proof fn lemma_sharded_decode_agree(s: Seq<char>, n: int)
    requires
        2 <= n,
        spec_multi_tokens(s, n) is Ok,
    ensures
        decode_sharded(s, n) == grammar::decode(s),
{
    codec::lemma_sharded_tokens_agree(s, n);
}

/// The round trip at the decode level: decoding a well-formed tree's own
/// canonical re-serialization reproduces exactly the tree.
pub proof fn lemma_text_round_trip(v: SpecValue)
    requires
        grammar::wf_value(v),
    ensures
        grammar::decode(crate::value::spec_text(v)) == Ok::<SpecValue, ReadError>(v),
{
    codec::lemma_decode_roundtrip(v);
}

} // verus!
