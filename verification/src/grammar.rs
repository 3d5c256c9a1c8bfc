use vstd::prelude::*;

use crate::error::ReadError;
use crate::lex;
use crate::token::SpecToken;
use crate::value::{obj_insert, SpecValue};
use crate::value::lemma_obj_insert_missing;

verus! {

/// The parser state of the aggregate being built, shared by arrays and
/// objects: expect the first element or the closing token, expect a comma or
/// the closing token, or expect the next element (after a comma, when a bare
/// element is mandatory and a closing token is a trailing-comma error).
#[derive(Clone, Copy, Debug, PartialEq)]
pub enum CollectState {
    FirstOrEnd,
    CommaOrEnd,
    Next,
}

/// The tokens a value can begin with.
pub open spec fn is_value_start(t: SpecToken) -> bool {
    ||| t is BeginObject
    ||| t is BeginArray
    ||| t is Null
    ||| t is Number
    ||| t is String
    ||| t is Boolean
}

/// One value parsed from the front of the token sequence: scalars are taken
/// directly, `[` and `{` start an aggregate.  Returns the value and the
/// tokens that follow it.
pub open spec fn parse_value(ts: Seq<SpecToken>) -> Result<(SpecValue, Seq<SpecToken>), ReadError>
    decreases ts.len(), 0int,
{
    if ts.len() == 0 {
        Err(ReadError::Eof)
    } else {
        match ts[0] {
            SpecToken::String(s) => Ok((SpecValue::String(s), ts.skip(1))),
            SpecToken::Number(n) => Ok((SpecValue::Number(n), ts.skip(1))),
            SpecToken::Boolean(b) => Ok((SpecValue::Boolean(b), ts.skip(1))),
            SpecToken::Null => Ok((SpecValue::Null, ts.skip(1))),
            SpecToken::BeginArray => match parse_array_items(
                ts.skip(1),
                Seq::empty(),
                CollectState::FirstOrEnd,
            ) {
                Ok((items, rest)) => Ok((SpecValue::Array(items), rest)),
                Err(e) => Err(e),
            },
            SpecToken::BeginObject => match parse_object_items(
                ts.skip(1),
                Seq::empty(),
                CollectState::FirstOrEnd,
            ) {
                Ok((es, rest)) => Ok((SpecValue::Object(es), rest)),
                Err(e) => Err(e),
            },
            _ => Err(ReadError::IllegalSyntax),
        }
    }
}

/// The element loop of an array, entered just after `[`: elements and commas
/// alternate as the state demands until `]` closes the array.  A token that
/// the state does not permit is a syntax error; the guarded recursion is
/// total, and [`lemma_parse_progress`] shows the guard never fails.
pub open spec fn parse_array_items(
    ts: Seq<SpecToken>,
    acc: Seq<SpecValue>,
    st: CollectState,
) -> Result<(Seq<SpecValue>, Seq<SpecToken>), ReadError>
    decreases ts.len(), 2int,
{
    if ts.len() == 0 {
        Err(ReadError::Eof)
    } else if ts[0] is EndArray && !(st is Next) {
        Ok((acc, ts.skip(1)))
    } else if ts[0] is Comma && st is CommaOrEnd {
        parse_array_items(ts.skip(1), acc, CollectState::Next)
    } else if is_value_start(ts[0]) && !(st is CommaOrEnd) {
        match parse_value(ts) {
            Ok((v, rest)) => if rest.len() < ts.len() {
                parse_array_items(rest, acc.push(v), CollectState::CommaOrEnd)
            } else {
                Err(ReadError::Eof)
            },
            Err(e) => Err(e),
        }
    } else {
        Err(ReadError::IllegalSyntax)
    }
}

/// A key/value pair: a string key, a colon, then the value.
pub open spec fn parse_pair(ts: Seq<SpecToken>) -> Result<
    ((Seq<char>, SpecValue), Seq<SpecToken>),
    ReadError,
>
    recommends
        ts.len() > 0 && ts[0] is String,
    decreases ts.len(), 1int,
{
    if ts.len() < 2 {
        Err(ReadError::Eof)
    } else if !(ts[1] is Colon) {
        Err(ReadError::IllegalSyntax)
    } else {
        match parse_value(ts.skip(2)) {
            Ok((v, rest)) => Ok(((ts[0]->String_0, v), rest)),
            Err(e) => Err(e),
        }
    }
}

/// The pair loop of an object, entered just after `{`: pairs and commas
/// alternate as the state demands until `}` closes the object.  Each parsed
/// pair is inserted into the accumulated entries, so a repeated key
/// overwrites its earlier value.
pub open spec fn parse_object_items(
    ts: Seq<SpecToken>,
    acc: Seq<(Seq<char>, SpecValue)>,
    st: CollectState,
) -> Result<(Seq<(Seq<char>, SpecValue)>, Seq<SpecToken>), ReadError>
    decreases ts.len(), 2int,
{
    if ts.len() == 0 {
        Err(ReadError::Eof)
    } else if ts[0] is EndObject && !(st is Next) {
        Ok((acc, ts.skip(1)))
    } else if ts[0] is Comma && st is CommaOrEnd {
        parse_object_items(ts.skip(1), acc, CollectState::Next)
    } else if ts[0] is String && !(st is CommaOrEnd) {
        match parse_pair(ts) {
            Ok((kv, rest)) => if rest.len() < ts.len() {
                parse_object_items(rest, obj_insert(acc, kv.0, kv.1), CollectState::CommaOrEnd)
            } else {
                Err(ReadError::Eof)
            },
            Err(e) => Err(e),
        }
    } else {
        Err(ReadError::IllegalSyntax)
    }
}

/// Parsing a value consumes at least one token: the returned rest is a
/// strictly shorter suffix of the input, so the guarded recursions above are
/// total.
pub proof fn lemma_value_progress(ts: Seq<SpecToken>)
    ensures
        parse_value(ts) is Ok ==> parse_value(ts)->Ok_0.1.len() < ts.len(),
    decreases ts.len(), 0int,
{
    if ts.len() > 0 {
        match ts[0] {
            SpecToken::BeginArray => {
                lemma_array_progress(ts.skip(1), Seq::empty(), CollectState::FirstOrEnd);
            },
            SpecToken::BeginObject => {
                lemma_object_progress(ts.skip(1), Seq::empty(), CollectState::FirstOrEnd);
            },
            _ => {},
        }
    }
}

/// The array-element loop never returns more input than it was given.
pub proof fn lemma_array_progress(ts: Seq<SpecToken>, acc: Seq<SpecValue>, st: CollectState)
    ensures
        parse_array_items(ts, acc, st) is Ok ==> parse_array_items(ts, acc, st)->Ok_0.1.len()
            <= ts.len(),
    decreases ts.len(), 2int,
{
    if ts.len() == 0 {
    } else if ts[0] is EndArray && !(st is Next) {
    } else if ts[0] is Comma && st is CommaOrEnd {
        lemma_array_progress(ts.skip(1), acc, CollectState::Next);
    } else if is_value_start(ts[0]) && !(st is CommaOrEnd) {
        lemma_value_progress(ts);
        match parse_value(ts) {
            Ok((v, rest)) => {
                if rest.len() < ts.len() {
                    lemma_array_progress(rest, acc.push(v), CollectState::CommaOrEnd);
                }
            },
            Err(_) => {},
        }
    }
}

/// A parsed pair consumes at least its key and colon.
pub proof fn lemma_pair_progress(ts: Seq<SpecToken>)
    ensures
        parse_pair(ts) is Ok ==> parse_pair(ts)->Ok_0.1.len() < ts.len(),
    decreases ts.len(), 1int,
{
    if ts.len() >= 2 && ts[1] is Colon {
        lemma_value_progress(ts.skip(2));
    }
}

/// The object-pair loop never returns more input than it was given.
pub proof fn lemma_object_progress(
    ts: Seq<SpecToken>,
    acc: Seq<(Seq<char>, SpecValue)>,
    st: CollectState,
)
    ensures
        parse_object_items(ts, acc, st) is Ok ==> parse_object_items(ts, acc, st)->Ok_0.1.len()
            <= ts.len(),
    decreases ts.len(), 2int,
{
    if ts.len() == 0 {
    } else if ts[0] is EndObject && !(st is Next) {
    } else if ts[0] is Comma && st is CommaOrEnd {
        lemma_object_progress(ts.skip(1), acc, CollectState::Next);
    } else if ts[0] is String && !(st is CommaOrEnd) {
        lemma_pair_progress(ts);
        match parse_pair(ts) {
            Ok((kv, rest)) => {
                if rest.len() < ts.len() {
                    lemma_object_progress(rest, obj_insert(acc, kv.0, kv.1), CollectState::CommaOrEnd);
                }
            },
            Err(_) => {},
        }
    }
}

/// Tree building fails only by running out of tokens or by a token arriving
/// in a state that does not permit it.
pub open spec fn is_parse_err(e: ReadError) -> bool {
    e is Eof || e is IllegalSyntax
}

pub proof fn lemma_value_err(ts: Seq<SpecToken>)
    ensures
        parse_value(ts) is Err ==> is_parse_err(parse_value(ts)->Err_0),
    decreases ts.len(), 0int,
{
    if ts.len() > 0 {
        match ts[0] {
            SpecToken::BeginArray => {
                lemma_array_err(ts.skip(1), Seq::empty(), CollectState::FirstOrEnd);
            },
            SpecToken::BeginObject => {
                lemma_object_err(ts.skip(1), Seq::empty(), CollectState::FirstOrEnd);
            },
            _ => {},
        }
    }
}

pub proof fn lemma_array_err(ts: Seq<SpecToken>, acc: Seq<SpecValue>, st: CollectState)
    ensures
        parse_array_items(ts, acc, st) is Err ==> is_parse_err(parse_array_items(
            ts,
            acc,
            st,
        )->Err_0),
    decreases ts.len(), 2int,
{
    if ts.len() == 0 {
    } else if ts[0] is EndArray && !(st is Next) {
    } else if ts[0] is Comma && st is CommaOrEnd {
        lemma_array_err(ts.skip(1), acc, CollectState::Next);
    } else if is_value_start(ts[0]) && !(st is CommaOrEnd) {
        lemma_value_err(ts);
        match parse_value(ts) {
            Ok((v, rest)) => {
                if rest.len() < ts.len() {
                    lemma_array_err(rest, acc.push(v), CollectState::CommaOrEnd);
                }
            },
            Err(_) => {},
        }
    }
}

pub proof fn lemma_pair_err(ts: Seq<SpecToken>)
    ensures
        parse_pair(ts) is Err ==> is_parse_err(parse_pair(ts)->Err_0),
    decreases ts.len(), 1int,
{
    if ts.len() >= 2 && ts[1] is Colon {
        lemma_value_err(ts.skip(2));
    }
}

pub proof fn lemma_object_err(ts: Seq<SpecToken>, acc: Seq<(Seq<char>, SpecValue)>, st: CollectState)
    ensures
        parse_object_items(ts, acc, st) is Err ==> is_parse_err(parse_object_items(
            ts,
            acc,
            st,
        )->Err_0),
    decreases ts.len(), 2int,
{
    if ts.len() == 0 {
    } else if ts[0] is EndObject && !(st is Next) {
    } else if ts[0] is Comma && st is CommaOrEnd {
        lemma_object_err(ts.skip(1), acc, CollectState::Next);
    } else if ts[0] is String && !(st is CommaOrEnd) {
        lemma_pair_err(ts);
        match parse_pair(ts) {
            Ok((kv, rest)) => {
                if rest.len() < ts.len() {
                    lemma_object_err(rest, obj_insert(acc, kv.0, kv.1), CollectState::CommaOrEnd);
                }
            },
            Err(_) => {},
        }
    }
}

/// The whole second pass: one value parsed from the front, and the stream
/// must then be exhausted — trailing tokens after a complete value are a
/// syntax error, not ignored.  A trailing explicit end-of-input marker also
/// counts as exhaustion (the defensive double-check of `has_next`; a token
/// sequence produced by the lexical pass never contains the marker).
pub open spec fn parse_tokens(ts: Seq<SpecToken>) -> Result<SpecValue, ReadError> {
    match parse_value(ts) {
        Ok((v, rest)) => if rest.len() == 0 || rest[0] is Eof {
            Ok(v)
        } else {
            Err(ReadError::IllegalSyntax)
        },
        Err(e) => Err(e),
    }
}

/// The whole decode over characters: tokenize, then build, with the first
/// error of either pass surfacing unchanged.
pub open spec fn decode(s: Seq<char>) -> Result<SpecValue, ReadError> {
    match lex::tokens_from(s) {
        Ok(ts) => parse_tokens(ts),
        Err(e) => Err(e),
    }
}

/// The whole decode over bytes, each byte read as the character with the
/// same code, and an unusable dispatch character reported as a byte.
pub open spec fn decode_bytes(b: Seq<u8>) -> Result<SpecValue, ReadError> {
    match lex::tokens_from(lex::latin1(b)) {
        Ok(ts) => parse_tokens(ts),
        Err(e) => Err(lex::to_byte_err(e)),
    }
}


/// The token sequence a tree value stands for: its own canonical
/// tokenization, the exact tokens the lexical pass emits for the tree's
/// canonical re-serialization.
pub open spec fn value_tokens(v: SpecValue) -> Seq<SpecToken>
    decreases v, 0int,
{
    match v {
        SpecValue::Null => seq![SpecToken::Null],
        SpecValue::Boolean(b) => seq![SpecToken::Boolean(b)],
        SpecValue::Number(n) => seq![SpecToken::Number(n)],
        SpecValue::String(s) => seq![SpecToken::String(s)],
        SpecValue::Array(items) => seq![SpecToken::BeginArray] + values_tokens(items) + seq![
            SpecToken::EndArray,
        ],
        SpecValue::Object(es) => seq![SpecToken::BeginObject] + entries_tokens(es) + seq![
            SpecToken::EndObject,
        ],
    }
}

pub open spec fn values_tokens(items: Seq<SpecValue>) -> Seq<SpecToken>
    decreases items, 1int,
{
    if items.len() == 0 {
        Seq::empty()
    } else if items.len() == 1 {
        value_tokens(items[0])
    } else {
        value_tokens(items[0]) + seq![SpecToken::Comma] + values_tokens(items.skip(1))
    }
}

pub open spec fn entry_tokens(e: (Seq<char>, SpecValue)) -> Seq<SpecToken>
    decreases e, 0int,
{
    seq![SpecToken::String(e.0), SpecToken::Colon] + value_tokens(e.1)
}

pub open spec fn entries_tokens(es: Seq<(Seq<char>, SpecValue)>) -> Seq<SpecToken>
    decreases es, 1int,
{
    if es.len() == 0 {
        Seq::empty()
    } else if es.len() == 1 {
        entry_tokens(es[0])
    } else {
        entry_tokens(es[0]) + seq![SpecToken::Comma] + entries_tokens(es.skip(1))
    }
}

/// Pairwise distinct keys.
pub open spec fn keys_distinct(es: Seq<(Seq<char>, SpecValue)>) -> bool {
    forall|i: int, j: int| 0 <= i < j < es.len() ==> (#[trigger] es[i]).0 != (#[trigger] es[j]).0
}

/// A well-formed tree: every object's keys are pairwise distinct, down to
/// the leaves.  Every decoded tree is of this shape, since repeated keys
/// collapse on insertion.
pub open spec fn wf_value(v: SpecValue) -> bool
    decreases v, 0int,
{
    match v {
        SpecValue::Array(items) => wf_values(items),
        SpecValue::Object(es) => keys_distinct(es) && wf_entries(es),
        SpecValue::Number(n) => lex::wf_number(n),
        _ => true,
    }
}

pub open spec fn wf_values(items: Seq<SpecValue>) -> bool
    decreases items, 1int,
{
    if items.len() == 0 {
        true
    } else {
        wf_value(items[0]) && wf_values(items.skip(1))
    }
}

pub open spec fn wf_entries(es: Seq<(Seq<char>, SpecValue)>) -> bool
    decreases es, 1int,
{
    if es.len() == 0 {
        true
    } else {
        wf_value(es[0].1) && wf_entries(es.skip(1))
    }
}

/// A value's token sequence is never empty and always begins with a token a
/// value can begin with.
pub proof fn lemma_value_tokens_start(v: SpecValue)
    ensures
        value_tokens(v).len() >= 1,
        is_value_start(value_tokens(v)[0]),
{
    match v {
        SpecValue::Array(items) => {
            assert(value_tokens(v)[0] == SpecToken::BeginArray);
        },
        SpecValue::Object(es) => {
            assert(value_tokens(v)[0] == SpecToken::BeginObject);
        },
        _ => {},
    }
}

/// The tree builder inverts a tree's own tokenization: parsing one value
/// from a well-formed tree's token sequence, whatever follows it, yields
/// exactly the tree and leaves exactly what followed.
pub proof fn lemma_value_roundtrip(v: SpecValue, rest: Seq<SpecToken>)
    requires
        wf_value(v),
    ensures
        parse_value(value_tokens(v) + rest) == Ok::<(SpecValue, Seq<SpecToken>), ReadError>(
            (v, rest),
        ),
    decreases v, 0int,
{
    let ts = value_tokens(v) + rest;
    match v {
        SpecValue::Array(items) => {
            assert(ts[0] == SpecToken::BeginArray);
            assert(ts.skip(1) =~= values_tokens(items) + seq![SpecToken::EndArray] + rest);
            lemma_array_roundtrip(items, Seq::empty(), rest, CollectState::FirstOrEnd);
            assert(Seq::<SpecValue>::empty() + items =~= items);
        },
        SpecValue::Object(es) => {
            assert(ts[0] == SpecToken::BeginObject);
            assert(ts.skip(1) =~= entries_tokens(es) + seq![SpecToken::EndObject] + rest);
            assert(Seq::<(Seq<char>, SpecValue)>::empty() + es =~= es);
            lemma_object_roundtrip(es, Seq::empty(), rest, CollectState::FirstOrEnd);
        },
        _ => {
            assert(ts.skip(1) =~= rest);
        },
    }
}

/// The array loop inverts the element tokenization: with the elements'
/// tokens, the closing token and a tail ahead, it accumulates exactly the
/// elements and leaves exactly the tail.
pub proof fn lemma_array_roundtrip(
    items: Seq<SpecValue>,
    acc: Seq<SpecValue>,
    rest: Seq<SpecToken>,
    st: CollectState,
)
    requires
        wf_values(items),
        st is FirstOrEnd || st is Next,
        st is Next ==> items.len() > 0,
    ensures
        parse_array_items(values_tokens(items) + seq![SpecToken::EndArray] + rest, acc, st)
            == Ok::<(Seq<SpecValue>, Seq<SpecToken>), ReadError>((acc + items, rest)),
    decreases items, 1int,
{
    let ts = values_tokens(items) + seq![SpecToken::EndArray] + rest;
    if items.len() == 0 {
        assert(values_tokens(items) == Seq::<SpecToken>::empty());
        assert(ts =~= seq![SpecToken::EndArray] + rest);
        assert(ts[0] == SpecToken::EndArray);
        assert(ts.skip(1) =~= rest);
        assert(acc + items =~= acc);
        assert(parse_array_items(ts, acc, st) == Ok::<
            (Seq<SpecValue>, Seq<SpecToken>),
            ReadError,
        >((acc + items, rest)));
    } else {
        lemma_value_tokens_start(items[0]);
        let vts = value_tokens(items[0]);
        if items.len() == 1 {
            assert(values_tokens(items) == vts);
            let tail = seq![SpecToken::EndArray] + rest;
            assert(ts =~= vts + tail);
            assert(ts[0] == vts[0]);
            lemma_value_roundtrip(items[0], tail);
            assert(parse_value(ts) == Ok::<(SpecValue, Seq<SpecToken>), ReadError>(
                (items[0], tail),
            ));
            assert(tail.len() < ts.len());
            // the loop then sees the closing token
            assert(tail[0] == SpecToken::EndArray);
            assert(tail.skip(1) =~= rest);
            assert(acc.push(items[0]) =~= acc + items);
            assert(parse_array_items(tail, acc.push(items[0]), CollectState::CommaOrEnd) == Ok::<
                (Seq<SpecValue>, Seq<SpecToken>),
                ReadError,
            >((acc + items, rest)));
            assert(parse_array_items(ts, acc, st) == Ok::<
                (Seq<SpecValue>, Seq<SpecToken>),
                ReadError,
            >((acc + items, rest)));
        } else {
            assert(values_tokens(items) == vts + seq![SpecToken::Comma] + values_tokens(
                items.skip(1),
            ));
            let tail = seq![SpecToken::Comma] + values_tokens(items.skip(1)) + seq![
                SpecToken::EndArray,
            ] + rest;
            assert(ts =~= vts + tail);
            assert(ts[0] == vts[0]);
            lemma_value_roundtrip(items[0], tail);
            assert(parse_value(ts) == Ok::<(SpecValue, Seq<SpecToken>), ReadError>(
                (items[0], tail),
            ));
            assert(tail.len() < ts.len());
            // the loop consumes the comma and expects the next element
            assert(tail[0] == SpecToken::Comma);
            assert(tail.skip(1) =~= values_tokens(items.skip(1)) + seq![SpecToken::EndArray]
                + rest);
            lemma_array_roundtrip(items.skip(1), acc.push(items[0]), rest, CollectState::Next);
            assert(acc.push(items[0]) + items.skip(1) =~= acc + items);
            assert(parse_array_items(tail.skip(1), acc.push(items[0]), CollectState::Next) == Ok::<
                (Seq<SpecValue>, Seq<SpecToken>),
                ReadError,
            >((acc + items, rest)));
            assert(parse_array_items(tail, acc.push(items[0]), CollectState::CommaOrEnd) == Ok::<
                (Seq<SpecValue>, Seq<SpecToken>),
                ReadError,
            >((acc + items, rest)));
            assert(parse_array_items(ts, acc, st) == Ok::<
                (Seq<SpecValue>, Seq<SpecToken>),
                ReadError,
            >((acc + items, rest)));
        }
    }
}

/// The object loop inverts the pair tokenization: with the pairs' tokens,
/// the closing token and a tail ahead, it accumulates exactly the entries —
/// fresh keys append, so distinct keys reproduce the entries in order — and
/// leaves exactly the tail.
pub proof fn lemma_object_roundtrip(
    es: Seq<(Seq<char>, SpecValue)>,
    acc: Seq<(Seq<char>, SpecValue)>,
    rest: Seq<SpecToken>,
    st: CollectState,
)
    requires
        wf_entries(es),
        keys_distinct(acc + es),
        st is FirstOrEnd || st is Next,
        st is Next ==> es.len() > 0,
    ensures
        parse_object_items(entries_tokens(es) + seq![SpecToken::EndObject] + rest, acc, st)
            == Ok::<(Seq<(Seq<char>, SpecValue)>, Seq<SpecToken>), ReadError>((acc + es, rest)),
    decreases es, 1int,
{
    let ts = entries_tokens(es) + seq![SpecToken::EndObject] + rest;
    if es.len() == 0 {
        assert(entries_tokens(es) == Seq::<SpecToken>::empty());
        assert(ts =~= seq![SpecToken::EndObject] + rest);
        assert(ts[0] == SpecToken::EndObject);
        assert(ts.skip(1) =~= rest);
        assert(acc + es =~= acc);
        assert(parse_object_items(ts, acc, st) == Ok::<
            (Seq<(Seq<char>, SpecValue)>, Seq<SpecToken>),
            ReadError,
        >((acc + es, rest)));
    } else {
        let k = es[0].0;
        let v = es[0].1;
        let vts = value_tokens(v);
        let pair_tail_common = if es.len() == 1 {
            seq![SpecToken::EndObject] + rest
        } else {
            seq![SpecToken::Comma] + entries_tokens(es.skip(1)) + seq![SpecToken::EndObject] + rest
        };
        assert(entry_tokens(es[0]) == seq![SpecToken::String(k), SpecToken::Colon] + vts);
        if es.len() == 1 {
            assert(entries_tokens(es) == entry_tokens(es[0]));
        } else {
            assert(entries_tokens(es) == entry_tokens(es[0]) + seq![SpecToken::Comma]
                + entries_tokens(es.skip(1)));
        }
        assert(ts =~= seq![SpecToken::String(k), SpecToken::Colon] + vts + pair_tail_common);
        assert(ts[0] == SpecToken::String(k));
        assert(ts[1] == SpecToken::Colon);
        // the pair parser takes the key and colon, then one value
        assert(ts.skip(2) =~= vts + pair_tail_common);
        lemma_value_roundtrip(v, pair_tail_common);
        assert(parse_pair(ts) == Ok::<((Seq<char>, SpecValue), Seq<SpecToken>), ReadError>(
            ((k, v), pair_tail_common),
        ));
        assert(pair_tail_common.len() < ts.len());
        // the fresh key appends to the accumulated entries
        assert forall|j: int| 0 <= j < acc.len() implies (#[trigger] acc[j]).0 != k by {
            assert((acc + es)[j] == acc[j]);
            assert((acc + es)[acc.len() as int] == es[0]);
        }
        lemma_obj_insert_missing(acc, k, v);
        assert(obj_insert(acc, k, v) == acc.push((k, v)));
        assert(acc.push((k, v)) =~= acc + seq![es[0]]);
        if es.len() == 1 {
            assert(pair_tail_common[0] == SpecToken::EndObject);
            assert(pair_tail_common.skip(1) =~= rest);
            assert(acc.push((k, v)) =~= acc + es);
            assert(parse_object_items(pair_tail_common, acc.push((k, v)), CollectState::CommaOrEnd)
                == Ok::<(Seq<(Seq<char>, SpecValue)>, Seq<SpecToken>), ReadError>(
                (acc + es, rest),
            ));
            assert(parse_object_items(ts, acc, st) == Ok::<
                (Seq<(Seq<char>, SpecValue)>, Seq<SpecToken>),
                ReadError,
            >((acc + es, rest)));
        } else {
            assert(pair_tail_common[0] == SpecToken::Comma);
            assert(pair_tail_common.skip(1) =~= entries_tokens(es.skip(1)) + seq![
                SpecToken::EndObject,
            ] + rest);
            assert(acc.push((k, v)) + es.skip(1) =~= acc + es);
            assert(keys_distinct(acc.push((k, v)) + es.skip(1)));
            lemma_object_roundtrip(es.skip(1), acc.push((k, v)), rest, CollectState::Next);
            assert(parse_object_items(pair_tail_common.skip(1), acc.push((k, v)), CollectState::Next)
                == Ok::<(Seq<(Seq<char>, SpecValue)>, Seq<SpecToken>), ReadError>(
                (acc + es, rest),
            ));
            assert(parse_object_items(pair_tail_common, acc.push((k, v)), CollectState::CommaOrEnd)
                == Ok::<(Seq<(Seq<char>, SpecValue)>, Seq<SpecToken>), ReadError>(
                (acc + es, rest),
            ));
            assert(parse_object_items(ts, acc, st) == Ok::<
                (Seq<(Seq<char>, SpecValue)>, Seq<SpecToken>),
                ReadError,
            >((acc + es, rest)));
        }
    }
}

/// Round trip at the token level: the whole second pass, applied to a
/// well-formed tree's own token sequence, reproduces exactly the tree.
pub proof fn lemma_parse_roundtrip(v: SpecValue)
    requires
        wf_value(v),
    ensures
        parse_tokens(value_tokens(v)) == Ok::<SpecValue, ReadError>(v),
{
    lemma_value_roundtrip(v, Seq::empty());
    assert(value_tokens(v) + Seq::<SpecToken>::empty() =~= value_tokens(v));
}


/// Whether some entry carries the key.
pub open spec fn has_key(es: Seq<(Seq<char>, SpecValue)>, k: Seq<char>) -> bool {
    exists|i: int| 0 <= i < es.len() && (#[trigger] es[i]).0 == k
}

/// The keys after an insertion are the old keys and the inserted one.
pub proof fn lemma_obj_insert_keys(
    es: Seq<(Seq<char>, SpecValue)>,
    k: Seq<char>,
    v: SpecValue,
    k2: Seq<char>,
)
    ensures
        has_key(obj_insert(es, k, v), k2) <==> (k2 == k || has_key(es, k2)),
    decreases es.len(),
{
    let r = obj_insert(es, k, v);
    if es.len() == 0 {
        assert(r == seq![(k, v)]);
        assert(r[0].0 == k);
        if k2 == k {
            assert(has_key(r, k2));
        }
        if has_key(r, k2) {
            let i = choose|i: int| 0 <= i < r.len() && (#[trigger] r[i]).0 == k2;
            assert(i == 0);
        }
    } else if es[0].0 == k {
        assert(r == seq![(k, v)] + es.skip(1));
        if k2 == k {
            assert(r[0].0 == k2);
            assert(has_key(r, k2));
        }
        if has_key(es, k2) {
            let i = choose|i: int| 0 <= i < es.len() && (#[trigger] es[i]).0 == k2;
            if i == 0 {
                assert(r[0].0 == k);
                assert(has_key(r, k2));
            } else {
                assert(r[i] == es.skip(1)[i - 1]);
                assert(es.skip(1)[i - 1] == es[i]);
                assert(has_key(r, k2));
            }
        }
        if has_key(r, k2) {
            let i = choose|i: int| 0 <= i < r.len() && (#[trigger] r[i]).0 == k2;
            if i == 0 {
            } else {
                assert(r[i] == es.skip(1)[i - 1]);
                assert(es.skip(1)[i - 1] == es[i]);
                assert(has_key(es, k2));
            }
        }
    } else {
        lemma_obj_insert_keys(es.skip(1), k, v, k2);
        let r2 = obj_insert(es.skip(1), k, v);
        assert(r == seq![es[0]] + r2);
        if k2 == k || has_key(es, k2) {
            if k2 == es[0].0 {
                assert(r[0].0 == k2);
                assert(has_key(r, k2));
            } else if k2 == k {
                let i = choose|i: int| 0 <= i < r2.len() && (#[trigger] r2[i]).0 == k2;
                assert(r[i + 1] == r2[i]);
                assert(has_key(r, k2));
            } else {
                let i = choose|i: int| 0 <= i < es.len() && (#[trigger] es[i]).0 == k2;
                if i == 0 {
                    assert(has_key(r, k2));
                } else {
                    assert(es.skip(1)[i - 1] == es[i]);
                    assert(has_key(es.skip(1), k2));
                    let j = choose|j: int| 0 <= j < r2.len() && (#[trigger] r2[j]).0 == k2;
                    assert(r[j + 1] == r2[j]);
                    assert(has_key(r, k2));
                }
            }
        }
        if has_key(r, k2) {
            let i = choose|i: int| 0 <= i < r.len() && (#[trigger] r[i]).0 == k2;
            if i == 0 {
                assert(es[0].0 == k2);
                assert(has_key(es, k2));
            } else {
                assert(r[i] == r2[i - 1]);
                assert(has_key(r2, k2));
                if !(k2 == k) {
                    let j = choose|j: int| 0 <= j < es.skip(1).len() && (#[trigger] es.skip(
                        1,
                    )[j]).0 == k2;
                    assert(es.skip(1)[j] == es[j + 1]);
                    assert(has_key(es, k2));
                }
            }
        }
    }
}

/// Insertion keeps keys pairwise distinct.
pub proof fn lemma_obj_insert_distinct(es: Seq<(Seq<char>, SpecValue)>, k: Seq<char>, v: SpecValue)
    requires
        keys_distinct(es),
    ensures
        keys_distinct(obj_insert(es, k, v)),
    decreases es.len(),
{
    let r = obj_insert(es, k, v);
    if es.len() == 0 {
        assert(keys_distinct(seq![(k, v)]));
    } else if es[0].0 == k {
        assert(r == seq![(k, v)] + es.skip(1));
        assert forall|i: int, j: int| 0 <= i < j < r.len() implies (#[trigger] r[i]).0 != (
        #[trigger] r[j]).0 by {
            if i == 0 {
                assert(r[j] == es.skip(1)[j - 1]);
                assert(es.skip(1)[j - 1] == es[j]);
                assert(es[0].0 != es[j].0);
            } else {
                assert(r[i] == es[i]);
                assert(r[j] == es[j]);
            }
        }
    } else {
        assert forall|i: int, j: int| 0 <= i < j < es.skip(1).len() implies (#[trigger] es.skip(
            1,
        )[i]).0 != (#[trigger] es.skip(1)[j]).0 by {
            assert(es.skip(1)[i] == es[i + 1]);
            assert(es.skip(1)[j] == es[j + 1]);
        }
        lemma_obj_insert_distinct(es.skip(1), k, v);
        let r2 = obj_insert(es.skip(1), k, v);
        assert(r == seq![es[0]] + r2);
        assert(!has_key(es.skip(1), es[0].0));
        lemma_obj_insert_keys(es.skip(1), k, v, es[0].0);
        assert(!has_key(r2, es[0].0));
        assert forall|i: int, j: int| 0 <= i < j < r.len() implies (#[trigger] r[i]).0 != (
        #[trigger] r[j]).0 by {
            if i == 0 {
                assert(r[j] == r2[j - 1]);
                if r[0].0 == r2[j - 1].0 {
                    assert(has_key(r2, es[0].0));
                }
            } else {
                assert(r[i] == r2[i - 1]);
                assert(r[j] == r2[j - 1]);
            }
        }
    }
}

/// Insertion keeps every held value well formed.
pub proof fn lemma_obj_insert_wf(es: Seq<(Seq<char>, SpecValue)>, k: Seq<char>, v: SpecValue)
    requires
        wf_entries(es),
        wf_value(v),
    ensures
        wf_entries(obj_insert(es, k, v)),
    decreases es.len(),
{
    let r = obj_insert(es, k, v);
    assert(wf_entries(Seq::<(Seq<char>, SpecValue)>::empty()));
    if es.len() == 0 {
        assert(r[0].1 == v);
        assert(r.skip(1) =~= Seq::<(Seq<char>, SpecValue)>::empty());
        assert(wf_entries(r));
    } else if es[0].0 == k {
        assert(r == seq![(k, v)] + es.skip(1));
        assert(r[0].1 == v);
        assert(r.skip(1) =~= es.skip(1));
        assert(wf_entries(r));
    } else {
        lemma_obj_insert_wf(es.skip(1), k, v);
        assert(r == seq![es[0]] + obj_insert(es.skip(1), k, v));
        assert(r[0].1 == es[0].1);
        assert(r.skip(1) =~= obj_insert(es.skip(1), k, v));
        assert(wf_entries(r));
    }
}

/// Appending a well-formed value keeps an element run well formed.
pub proof fn lemma_wf_values_push(items: Seq<SpecValue>, v: SpecValue)
    requires
        wf_values(items),
        wf_value(v),
    ensures
        wf_values(items.push(v)),
    decreases items.len(),
{
    assert(wf_values(Seq::<SpecValue>::empty()));
    if items.len() == 0 {
        assert(items.push(v)[0] == v);
        assert(items.push(v).skip(1) =~= Seq::<SpecValue>::empty());
        assert(wf_values(items.push(v)));
    } else {
        assert(items.push(v)[0] == items[0]);
        assert(items.push(v).skip(1) =~= items.skip(1).push(v));
        lemma_wf_values_push(items.skip(1), v);
        assert(wf_values(items.push(v)));
    }
}

/// Everything the tree builder returns is well formed: objects carry
/// pairwise distinct keys and well-formed numbers, down to the leaves —
/// provided every number token is well formed, as every token the lexical
/// pass emits is.
pub proof fn lemma_parse_value_wf(ts: Seq<SpecToken>)
    requires
        lex::wf_tokens(ts),
    ensures
        parse_value(ts) matches Ok(p) ==> wf_value(p.0) && lex::wf_tokens(p.1),
    decreases ts.len(), 0int,
{
    if ts.len() > 0 {
        assert(lex::wf_token(ts[0]));
        assert forall|i: int| 0 <= i < ts.skip(1).len() implies lex::wf_token(
            #[trigger] ts.skip(1)[i],
        ) by {
            assert(ts.skip(1)[i] == ts[i + 1]);
        }
        match ts[0] {
            SpecToken::BeginArray => {
                lemma_parse_array_wf(ts.skip(1), Seq::empty(), CollectState::FirstOrEnd);
            },
            SpecToken::BeginObject => {
                assert(keys_distinct(Seq::<(Seq<char>, SpecValue)>::empty()));
                lemma_parse_object_wf(ts.skip(1), Seq::empty(), CollectState::FirstOrEnd);
            },
            _ => {},
        }
    }
}

pub proof fn lemma_parse_array_wf(ts: Seq<SpecToken>, acc: Seq<SpecValue>, st: CollectState)
    requires
        lex::wf_tokens(ts),
        wf_values(acc),
    ensures
        parse_array_items(ts, acc, st) matches Ok(p) ==> wf_values(p.0) && lex::wf_tokens(p.1),
    decreases ts.len(), 2int,
{
    if ts.len() == 0 {
    } else {
        assert forall|i: int| 0 <= i < ts.skip(1).len() implies lex::wf_token(
            #[trigger] ts.skip(1)[i],
        ) by {
            assert(ts.skip(1)[i] == ts[i + 1]);
        }
        if ts[0] is EndArray && !(st is Next) {
        } else if ts[0] is Comma && st is CommaOrEnd {
            lemma_parse_array_wf(ts.skip(1), acc, CollectState::Next);
        } else if is_value_start(ts[0]) && !(st is CommaOrEnd) {
            lemma_parse_value_wf(ts);
            match parse_value(ts) {
                Ok((v, rest)) => {
                    if rest.len() < ts.len() {
                        lemma_wf_values_push(acc, v);
                        lemma_parse_array_wf(rest, acc.push(v), CollectState::CommaOrEnd);
                    }
                },
                Err(_) => {},
            }
        }
    }
}

pub proof fn lemma_parse_pair_wf(ts: Seq<SpecToken>)
    requires
        lex::wf_tokens(ts),
    ensures
        parse_pair(ts) matches Ok(p) ==> wf_value(p.0.1) && lex::wf_tokens(p.1),
    decreases ts.len(), 1int,
{
    if ts.len() >= 2 && ts[1] is Colon {
        assert forall|i: int| 0 <= i < ts.skip(2).len() implies lex::wf_token(
            #[trigger] ts.skip(2)[i],
        ) by {
            assert(ts.skip(2)[i] == ts[i + 2]);
        }
        lemma_parse_value_wf(ts.skip(2));
    }
}

pub proof fn lemma_parse_object_wf(
    ts: Seq<SpecToken>,
    acc: Seq<(Seq<char>, SpecValue)>,
    st: CollectState,
)
    requires
        lex::wf_tokens(ts),
        keys_distinct(acc),
        wf_entries(acc),
    ensures
        parse_object_items(ts, acc, st) matches Ok(p) ==> keys_distinct(p.0) && wf_entries(p.0)
            && lex::wf_tokens(p.1),
    decreases ts.len(), 2int,
{
    if ts.len() == 0 {
    } else {
        assert forall|i: int| 0 <= i < ts.skip(1).len() implies lex::wf_token(
            #[trigger] ts.skip(1)[i],
        ) by {
            assert(ts.skip(1)[i] == ts[i + 1]);
        }
        if ts[0] is EndObject && !(st is Next) {
        } else if ts[0] is Comma && st is CommaOrEnd {
            lemma_parse_object_wf(ts.skip(1), acc, CollectState::Next);
        } else if ts[0] is String && !(st is CommaOrEnd) {
            lemma_parse_pair_wf(ts);
            match parse_pair(ts) {
                Ok((kv, rest)) => {
                    if rest.len() < ts.len() {
                        lemma_obj_insert_distinct(acc, kv.0, kv.1);
                        lemma_obj_insert_wf(acc, kv.0, kv.1);
                        lemma_parse_object_wf(
                            rest,
                            obj_insert(acc, kv.0, kv.1),
                            CollectState::CommaOrEnd,
                        );
                    }
                },
                Err(_) => {},
            }
        }
    }
}

/// Every decoded tree is well formed: its objects hold pairwise distinct
/// keys and its numbers well-formed parts, down to the leaves.  Together
/// with the round trip this closes the loop: a decoded tree's canonical
/// re-serialization decodes back to the same tree.
pub proof fn lemma_decode_wf(s: Seq<char>)
    ensures
        decode(s) matches Ok(v) ==> wf_value(v),
{
    lex::lemma_tokens_from_wf(s);
    match lex::tokens_from(s) {
        Ok(ts) => {
            lemma_parse_value_wf(ts);
        },
        Err(_) => {},
    }
}

} // verus!
