use vstd::prelude::*;

use crate::error::ReadError;
use crate::grammar;
use crate::lex;
use crate::lex::NumState;
use crate::token::{SpecNumber, SpecToken};
use crate::multi_tokenizer::{is_cut_char, legal_cut, merge_shard_tokens, shards_of, spec_multi_tokens, spec_scan};
use crate::value::{
    spec_entry_text, spec_escape, spec_escape_all, spec_join_entries, spec_join_values,
    spec_number_text, spec_string_text, spec_text, SpecValue,
};

verus! {

/// The lexical pass, started on `s`, emits exactly the tokens `toks` and
/// then stands on `rest`.
pub open spec fn emits(s: Seq<char>, toks: Seq<SpecToken>, rest: Seq<char>) -> bool
    decreases toks.len(),
{
    if toks.len() == 0 {
        s == rest
    } else {
        match lex::next_token(s) {
            Ok(p) => p.0 == toks[0] && emits(p.1, toks.skip(1), rest),
            Err(_) => false,
        }
    }
}

/// Emission composes over concatenation of token runs.
pub proof fn lemma_emits_append(
    s: Seq<char>,
    t1: Seq<SpecToken>,
    mid: Seq<char>,
    t2: Seq<SpecToken>,
    rest: Seq<char>,
)
    requires
        emits(s, t1, mid),
        emits(mid, t2, rest),
    ensures
        emits(s, t1 + t2, rest),
    decreases t1.len(),
{
    if t1.len() == 0 {
        assert(s == mid);
        assert(t1 + t2 =~= t2);
    } else {
        match lex::next_token(s) {
            Ok(p) => {
                lemma_emits_append(p.1, t1.skip(1), mid, t2, rest);
                assert((t1 + t2).skip(1) =~= t1.skip(1) + t2);
                assert((t1 + t2)[0] == t1[0]);
            },
            Err(_) => {
                assert(false);
            },
        }
    }
}

/// Whatever the lexical pass emits before reaching `rest`, the whole pass
/// over `s` is those tokens followed by whatever the whole pass over `rest`
/// gives — provided none of the emitted tokens is the end-of-input marker.
pub proof fn lemma_tokens_from_emits(s: Seq<char>, toks: Seq<SpecToken>, rest: Seq<char>)
    requires
        emits(s, toks, rest),
        forall|i: int| 0 <= i < toks.len() ==> !((#[trigger] toks[i]) is Eof),
        lex::tokens_from(rest) is Ok,
    ensures
        lex::tokens_from(s) == Ok::<Seq<SpecToken>, ReadError>(
            toks + lex::tokens_from(rest)->Ok_0,
        ),
    decreases toks.len(),
{
    if toks.len() == 0 {
        assert(s == rest);
        assert(toks + lex::tokens_from(rest)->Ok_0 =~= lex::tokens_from(rest)->Ok_0);
    } else {
        match lex::next_token(s) {
            Ok(p) => {
                assert(!(p.0 is Eof));
                lex::lemma_next_token_progress(s);
                lemma_tokens_from_emits(p.1, toks.skip(1), rest);
                assert(toks + lex::tokens_from(rest)->Ok_0 =~= seq![toks[0]] + (toks.skip(1)
                    + lex::tokens_from(rest)->Ok_0));
            },
            Err(_) => {
                assert(false);
            },
        }
    }
}

/// A tail the canonical serializer can leave after any value: empty, or
/// starting with a structural character (which can neither extend a number
/// nor be mistaken for part of any other token).
pub open spec fn safe_tail(t: Seq<char>) -> bool {
    t.len() == 0 || lex::is_structural(t[0])
}


/// The number with a run of digits recorded in the part the state selects.
pub open spec fn push_digits(n: SpecNumber, st: NumState, ds: Seq<char>) -> SpecNumber
    decreases ds.len(),
{
    if ds.len() == 0 {
        n
    } else {
        push_digits(lex::push_digit(n, st, ds[0]), st, ds.skip(1))
    }
}

pub proof fn lemma_push_digits_fields(n: SpecNumber, st: NumState, ds: Seq<char>)
    ensures
        st is Integer ==> push_digits(n, st, ds) == (SpecNumber {
            int_digits: n.int_digits + ds,
            ..n
        }),
        st is Fraction ==> push_digits(n, st, ds) == (SpecNumber {
            frac_digits: n.frac_digits + ds,
            ..n
        }),
        st is Exponent ==> push_digits(n, st, ds) == (SpecNumber {
            exp_digits: n.exp_digits + ds,
            ..n
        }),
    decreases ds.len(),
{
    if ds.len() == 0 {
        assert(n.int_digits + ds =~= n.int_digits);
        assert(n.frac_digits + ds =~= n.frac_digits);
        assert(n.exp_digits + ds =~= n.exp_digits);
        assert(push_digits(n, st, ds) =~= SpecNumber { int_digits: n.int_digits + ds, ..n });
        assert(push_digits(n, st, ds) =~= SpecNumber { frac_digits: n.frac_digits + ds, ..n });
        assert(push_digits(n, st, ds) =~= SpecNumber { exp_digits: n.exp_digits + ds, ..n });
    } else {
        lemma_push_digits_fields(lex::push_digit(n, st, ds[0]), st, ds.skip(1));
        match st {
            NumState::Integer => {
                assert(n.int_digits.push(ds[0]) + ds.skip(1) =~= n.int_digits + ds);
            },
            NumState::Fraction => {
                assert(n.frac_digits.push(ds[0]) + ds.skip(1) =~= n.frac_digits + ds);
            },
            NumState::Exponent => {
                assert(n.exp_digits.push(ds[0]) + ds.skip(1) =~= n.exp_digits + ds);
            },
        }
    }
}

/// Number scanning consumes a run of digits whole, staying in its state.
pub proof fn lemma_scan_digit_run(ds: Seq<char>, st: NumState, n: SpecNumber, tail: Seq<char>)
    requires
        forall|i: int| 0 <= i < ds.len() ==> lex::is_digit(#[trigger] ds[i]),
    ensures
        lex::scan_number(ds + tail, st, n) == lex::scan_number(tail, st, push_digits(n, st, ds)),
    decreases ds.len(),
{
    if ds.len() == 0 {
        assert(ds + tail =~= tail);
    } else {
        let s = ds + tail;
        assert(s[0] == ds[0]);
        assert(lex::is_digit(s[0]));
        assert(s.skip(1) =~= ds.skip(1) + tail);
        lemma_scan_digit_run(ds.skip(1), st, lex::push_digit(n, st, ds[0]), tail);
    }
}

/// Number scanning inverts the canonical number text: for a well-formed
/// number followed by a safe tail, scanning reads back exactly the number
/// and leaves exactly the tail.
pub proof fn lemma_lex_number(n: SpecNumber, tail: Seq<char>)
    requires
        lex::wf_number(n),
        safe_tail(tail),
    ensures
        lex::scan_number_start(spec_number_text(n) + tail) == Ok::<
            (SpecNumber, Seq<char>),
            ReadError,
        >((n, tail)),
{
    let text = spec_number_text(n) + tail;
    let frac_txt: Seq<char> = if n.frac_digits.len() > 0 {
        seq!['.'] + n.frac_digits
    } else {
        Seq::empty()
    };
    let exp_txt: Seq<char> = if n.exp_digits.len() > 0 || n.exp_neg {
        seq!['e'] + (if n.exp_neg {
            seq!['-']
        } else {
            Seq::<char>::empty()
        }) + n.exp_digits
    } else {
        Seq::empty()
    };
    let after_sign = n.int_digits + (frac_txt + exp_txt + tail);
    let n0 = SpecNumber { neg: n.neg, ..SpecNumber::zero() };
    // the optional sign is taken first
    if n.neg {
        assert(text.len() > 0);
        assert(text[0] == '-');
        assert(text.skip(1) =~= after_sign);
        assert(lex::scan_number_start(text) == lex::scan_number(
            after_sign,
            NumState::Integer,
            n0,
        ));
    } else {
        assert(text =~= after_sign);
        assert(text[0] == n.int_digits[0]);
        assert(lex::is_digit(text[0]));
        assert(text[0] != '-');
        assert(lex::scan_number_start(text) == lex::scan_number(
            after_sign,
            NumState::Integer,
            n0,
        ));
    }
    // the integer digits are consumed in the integer state
    lemma_scan_digit_run(n.int_digits, NumState::Integer, n0, frac_txt + exp_txt + tail);
    let n1 = push_digits(n0, NumState::Integer, n.int_digits);
    lemma_push_digits_fields(n0, NumState::Integer, n.int_digits);
    assert(n1.int_digits =~= n.int_digits);
    // the fraction part, when present, switches to the fraction state
    let s2 = frac_txt + exp_txt + tail;
    let n2: SpecNumber;
    let st2: NumState;
    if n.frac_digits.len() > 0 {
        assert(s2[0] == '.');
        assert(!lex::is_digit('.'));
        assert(s2.skip(1) =~= n.frac_digits + (exp_txt + tail));
        lemma_scan_digit_run(n.frac_digits, NumState::Fraction, n1, exp_txt + tail);
        n2 = push_digits(n1, NumState::Fraction, n.frac_digits);
        lemma_push_digits_fields(n1, NumState::Fraction, n.frac_digits);
        st2 = NumState::Fraction;
        assert(lex::scan_number(s2, NumState::Integer, n1) == lex::scan_number(
            exp_txt + tail,
            st2,
            n2,
        ));
    } else {
        assert(s2 =~= exp_txt + tail);
        n2 = n1;
        st2 = NumState::Integer;
    }
    assert(n2.int_digits =~= n.int_digits);
    assert(n2.frac_digits =~= n.frac_digits);
    assert(n2.neg == n.neg);
    assert(!n2.exp_neg && n2.exp_digits.len() == 0);
    // the exponent part, when present, switches to the exponent state
    let s3 = exp_txt + tail;
    let n3: SpecNumber;
    if n.exp_digits.len() > 0 || n.exp_neg {
        assert(s3[0] == 'e');
        assert(!lex::is_digit('e'));
        if n.exp_neg {
            assert(exp_txt =~= seq!['e', '-'] + n.exp_digits);
            assert(s3.len() >= 2 && s3[1] == '-');
            assert(s3.skip(2) =~= n.exp_digits + tail);
            let n2e = SpecNumber { exp_neg: true, ..n2 };
            lemma_scan_digit_run(n.exp_digits, NumState::Exponent, n2e, tail);
            n3 = push_digits(n2e, NumState::Exponent, n.exp_digits);
            lemma_push_digits_fields(n2e, NumState::Exponent, n.exp_digits);
            assert(lex::scan_number(s3, st2, n2) == lex::scan_number(tail, NumState::Exponent, n3));
        } else {
            assert(exp_txt =~= seq!['e'] + n.exp_digits);
            assert(n.exp_digits.len() > 0);
            assert(s3.len() >= 2);
            assert(s3[1] == n.exp_digits[0]);
            assert(lex::is_digit(s3[1]));
            assert(s3[1] != '+' && s3[1] != '-');
            assert(s3.skip(1) =~= n.exp_digits + tail);
            lemma_scan_digit_run(n.exp_digits, NumState::Exponent, n2, tail);
            n3 = push_digits(n2, NumState::Exponent, n.exp_digits);
            lemma_push_digits_fields(n2, NumState::Exponent, n.exp_digits);
            assert(lex::scan_number(s3, st2, n2) == lex::scan_number(tail, NumState::Exponent, n3));
        }
        assert(n3 =~= n);
        assert(lex::scan_number(tail, NumState::Exponent, n3) == Ok::<
            (SpecNumber, Seq<char>),
            ReadError,
        >((n, tail)));
    } else {
        assert(s3 =~= tail);
        n3 = n2;
        assert(n3 =~= n);
        assert(lex::scan_number(tail, st2, n3) == Ok::<(SpecNumber, Seq<char>), ReadError>(
            (n, tail),
        ));
    }
}

/// String scanning inverts the canonical escaping: scanning the escaped
/// payload up to the closing quote reads back exactly the payload.
pub proof fn lemma_lex_string_payload(p: Seq<char>, acc: Seq<char>, tail: Seq<char>)
    ensures
        lex::scan_string(spec_escape_all(p) + seq!['"'] + tail, acc) == Ok::<
            (Seq<char>, Seq<char>),
            ReadError,
        >((acc + p, tail)),
    decreases p.len(),
{
    let s = spec_escape_all(p) + seq!['"'] + tail;
    if p.len() == 0 {
        assert(spec_escape_all(p) == Seq::<char>::empty());
        assert(s =~= seq!['"'] + tail);
        assert(s[0] == '"');
        assert(s.skip(1) =~= tail);
        assert(acc + p =~= acc);
    } else {
        let c = p[0];
        assert(spec_escape_all(p) == spec_escape(c) + spec_escape_all(p.skip(1)));
        if c == '"' || c == '\\' || c == '\t' || c == '\n' || c == '\r' {
            assert(spec_escape(c).len() == 2);
            assert(spec_escape(c)[0] == '\\');
            assert(s[0] == '\\');
            assert(s.len() >= 2);
            assert(s[1] == spec_escape(c)[1]);
            assert(lex::unescape(s[1]) == Some(c));
            assert(s.skip(2) =~= spec_escape_all(p.skip(1)) + seq!['"'] + tail);
            lemma_lex_string_payload(p.skip(1), acc.push(c), tail);
            assert(acc.push(c) + p.skip(1) =~= acc + p);
        } else {
            assert(spec_escape(c) =~= seq![c]);
            assert(s[0] == c);
            assert(c != '"' && c != '\\');
            assert(s.skip(1) =~= spec_escape_all(p.skip(1)) + seq!['"'] + tail);
            lemma_lex_string_payload(p.skip(1), acc.push(c), tail);
            assert(acc.push(c) + p.skip(1) =~= acc + p);
        }
    }
}


/// No token in a run is the end-of-input marker.
pub open spec fn no_eof(ts: Seq<SpecToken>) -> bool {
    forall|i: int| 0 <= i < ts.len() ==> !((#[trigger] ts[i]) is Eof)
}

pub proof fn lemma_no_eof_append(a: Seq<SpecToken>, b: Seq<SpecToken>)
    requires
        no_eof(a),
        no_eof(b),
    ensures
        no_eof(a + b),
{
    assert forall|i: int| 0 <= i < (a + b).len() implies !((#[trigger] (a + b)[i]) is Eof) by {
        if i < a.len() {
            assert((a + b)[i] == a[i]);
        } else {
            assert((a + b)[i] == b[i - a.len()]);
        }
    }
}

/// One structural character emits exactly its token.
pub proof fn lemma_emit_structural(c: char, tail: Seq<char>)
    requires
        lex::is_structural(c),
    ensures
        emits(seq![c] + tail, seq![lex::structural_token(c)], tail),
{
    let s = seq![c] + tail;
    assert(s[0] == c);
    assert(!lex::is_ws(c));
    assert(lex::skip_ws(s) == s);
    assert(s.skip(1) =~= tail);
    assert(lex::next_token(s) == Ok::<(SpecToken, Seq<char>), ReadError>(
        (lex::structural_token(c), tail),
    ));
    assert(seq![lex::structural_token(c)].skip(1) =~= Seq::<SpecToken>::empty());
    assert(emits(tail, Seq::<SpecToken>::empty(), tail));
}

/// The `null` literal emits exactly the null token.
pub proof fn lemma_emit_null(tail: Seq<char>)
    ensures
        emits(lex::null_lit() + tail, seq![SpecToken::Null], tail),
{
    let s = lex::null_lit() + tail;
    assert(s[0] == 'n');
    assert(!lex::is_ws('n') && !lex::is_structural('n'));
    assert(lex::skip_ws(s) == s);
    assert(s.len() >= 4);
    assert(s.take(4) =~= lex::null_lit());
    assert(s.skip(4) =~= tail);
    assert(lex::scan_exact(s, lex::null_lit()) == Ok::<Seq<char>, ReadError>(tail));
    assert(lex::next_token(s) == Ok::<(SpecToken, Seq<char>), ReadError>((SpecToken::Null, tail)));
    assert(seq![SpecToken::Null].skip(1) =~= Seq::<SpecToken>::empty());
    assert(emits(tail, Seq::<SpecToken>::empty(), tail));
}

/// A boolean literal emits exactly its boolean token.
pub proof fn lemma_emit_boolean(b: bool, tail: Seq<char>)
    ensures
        b ==> emits(lex::true_lit() + tail, seq![SpecToken::Boolean(true)], tail),
        !b ==> emits(lex::false_lit() + tail, seq![SpecToken::Boolean(false)], tail),
{
    if b {
        let s = lex::true_lit() + tail;
        assert(s[0] == 't');
        assert(!lex::is_ws('t') && !lex::is_structural('t'));
        assert(lex::skip_ws(s) == s);
        assert(s.len() >= 4);
        assert(s.take(4) =~= lex::true_lit());
        assert(s.skip(4) =~= tail);
        assert(lex::scan_exact(s, lex::true_lit()) == Ok::<Seq<char>, ReadError>(tail));
        assert(lex::next_token(s) == Ok::<(SpecToken, Seq<char>), ReadError>(
            (SpecToken::Boolean(true), tail),
        ));
        assert(seq![SpecToken::Boolean(true)].skip(1) =~= Seq::<SpecToken>::empty());
        assert(emits(tail, Seq::<SpecToken>::empty(), tail));
    } else {
        let s = lex::false_lit() + tail;
        assert(s[0] == 'f');
        assert(!lex::is_ws('f') && !lex::is_structural('f'));
        assert(lex::skip_ws(s) == s);
        assert(s.len() >= 5);
        assert(s.take(5) =~= lex::false_lit());
        assert(s.skip(5) =~= tail);
        assert(lex::scan_exact(s, lex::false_lit()) == Ok::<Seq<char>, ReadError>(tail));
        assert(lex::next_token(s) == Ok::<(SpecToken, Seq<char>), ReadError>(
            (SpecToken::Boolean(false), tail),
        ));
        assert(seq![SpecToken::Boolean(false)].skip(1) =~= Seq::<SpecToken>::empty());
        assert(emits(tail, Seq::<SpecToken>::empty(), tail));
    }
}

/// A canonical string text emits exactly its string token.
pub proof fn lemma_emit_string(p: Seq<char>, tail: Seq<char>)
    ensures
        emits(spec_string_text(p) + tail, seq![SpecToken::String(p)], tail),
{
    let s = spec_string_text(p) + tail;
    assert(s[0] == '"');
    assert(!lex::is_ws('"') && !lex::is_structural('"'));
    assert(lex::skip_ws(s) == s);
    assert(s.skip(1) =~= spec_escape_all(p) + seq!['"'] + tail);
    lemma_lex_string_payload(p, Seq::empty(), tail);
    assert(Seq::<char>::empty() + p =~= p);
    assert(lex::next_token(s) == Ok::<(SpecToken, Seq<char>), ReadError>(
        (SpecToken::String(p), tail),
    ));
    assert(seq![SpecToken::String(p)].skip(1) =~= Seq::<SpecToken>::empty());
    assert(emits(tail, Seq::<SpecToken>::empty(), tail));
}

/// A canonical number text emits exactly its number token.
pub proof fn lemma_emit_number(n: SpecNumber, tail: Seq<char>)
    requires
        lex::wf_number(n),
        safe_tail(tail),
    ensures
        emits(spec_number_text(n) + tail, seq![SpecToken::Number(n)], tail),
{
    let s = spec_number_text(n) + tail;
    lemma_lex_number(n, tail);
    if n.neg {
        assert(s[0] == '-');
        assert(!lex::is_ws('-') && !lex::is_structural('-'));
        assert(s[0] != '"' && s[0] != 'n' && s[0] != 't' && s[0] != 'f');
    } else {
        assert(s[0] == n.int_digits[0]);
        assert(lex::is_digit(s[0]));
        assert(!lex::is_ws(s[0]) && !lex::is_structural(s[0]));
        assert(s[0] != '"' && s[0] != 'n' && s[0] != 't' && s[0] != 'f');
    }
    assert(lex::skip_ws(s) == s);
    assert(lex::next_token(s) == Ok::<(SpecToken, Seq<char>), ReadError>(
        (SpecToken::Number(n), tail),
    ));
    assert(seq![SpecToken::Number(n)].skip(1) =~= Seq::<SpecToken>::empty());
    assert(emits(tail, Seq::<SpecToken>::empty(), tail));
}


pub proof fn lemma_value_tokens_no_eof(v: SpecValue)
    ensures
        no_eof(grammar::value_tokens(v)),
    decreases v, 0int,
{
    match v {
        SpecValue::Array(items) => {
            lemma_values_tokens_no_eof(items);
            assert(no_eof(seq![SpecToken::BeginArray]));
            assert(no_eof(seq![SpecToken::EndArray]));
            lemma_no_eof_append(seq![SpecToken::BeginArray], grammar::values_tokens(items));
            lemma_no_eof_append(
                seq![SpecToken::BeginArray] + grammar::values_tokens(items),
                seq![SpecToken::EndArray],
            );
        },
        SpecValue::Object(es) => {
            lemma_entries_tokens_no_eof(es);
            assert(no_eof(seq![SpecToken::BeginObject]));
            assert(no_eof(seq![SpecToken::EndObject]));
            lemma_no_eof_append(seq![SpecToken::BeginObject], grammar::entries_tokens(es));
            lemma_no_eof_append(
                seq![SpecToken::BeginObject] + grammar::entries_tokens(es),
                seq![SpecToken::EndObject],
            );
        },
        _ => {},
    }
}

pub proof fn lemma_values_tokens_no_eof(items: Seq<SpecValue>)
    ensures
        no_eof(grammar::values_tokens(items)),
    decreases items, 1int,
{
    if items.len() == 0 {
    } else if items.len() == 1 {
        lemma_value_tokens_no_eof(items[0]);
    } else {
        lemma_value_tokens_no_eof(items[0]);
        lemma_values_tokens_no_eof(items.skip(1));
        assert(no_eof(seq![SpecToken::Comma]));
        lemma_no_eof_append(grammar::value_tokens(items[0]), seq![SpecToken::Comma]);
        lemma_no_eof_append(
            grammar::value_tokens(items[0]) + seq![SpecToken::Comma],
            grammar::values_tokens(items.skip(1)),
        );
    }
}

pub proof fn lemma_entries_tokens_no_eof(es: Seq<(Seq<char>, SpecValue)>)
    ensures
        no_eof(grammar::entries_tokens(es)),
    decreases es, 1int,
{
    if es.len() == 0 {
    } else {
        lemma_value_tokens_no_eof(es[0].1);
        assert(no_eof(seq![SpecToken::String(es[0].0), SpecToken::Colon]));
        lemma_no_eof_append(
            seq![SpecToken::String(es[0].0), SpecToken::Colon],
            grammar::value_tokens(es[0].1),
        );
        assert(grammar::entry_tokens(es[0]) == seq![
            SpecToken::String(es[0].0),
            SpecToken::Colon,
        ] + grammar::value_tokens(es[0].1));
        if es.len() == 1 {
            assert(grammar::entries_tokens(es) == grammar::entry_tokens(es[0]));
        } else {
            lemma_entries_tokens_no_eof(es.skip(1));
            assert(no_eof(seq![SpecToken::Comma]));
            lemma_no_eof_append(grammar::entry_tokens(es[0]), seq![SpecToken::Comma]);
            lemma_no_eof_append(
                grammar::entry_tokens(es[0]) + seq![SpecToken::Comma],
                grammar::entries_tokens(es.skip(1)),
            );
        }
    }
}

/// The lexical pass, run on the canonical text of a well-formed tree with a
/// safe tail behind it, emits exactly the tree's own token sequence and
/// stands on the tail.
pub proof fn lemma_emit_value(v: SpecValue, tail: Seq<char>)
    requires
        grammar::wf_value(v),
        safe_tail(tail),
    ensures
        emits(spec_text(v) + tail, grammar::value_tokens(v), tail),
    decreases v, 0int,
{
    match v {
        SpecValue::Null => {
            lemma_emit_null(tail);
        },
        SpecValue::Boolean(b) => {
            lemma_emit_boolean(b, tail);
        },
        SpecValue::Number(n) => {
            lemma_emit_number(n, tail);
        },
        SpecValue::String(p) => {
            lemma_emit_string(p, tail);
        },
        SpecValue::Array(items) => {
            let text = spec_text(v) + tail;
            let close = seq![']'] + tail;
            let mid1 = spec_join_values(items) + close;
            assert(text =~= seq!['['] + mid1);
            lemma_emit_structural('[', mid1);
            assert(lex::structural_token('[') == SpecToken::BeginArray);
            assert(safe_tail(close));
            lemma_emit_values(items, close);
            lemma_emit_structural(']', tail);
            assert(lex::structural_token(']') == SpecToken::EndArray);
            lemma_emits_append(
                mid1,
                grammar::values_tokens(items),
                close,
                seq![SpecToken::EndArray],
                tail,
            );
            lemma_emits_append(
                text,
                seq![SpecToken::BeginArray],
                mid1,
                grammar::values_tokens(items) + seq![SpecToken::EndArray],
                tail,
            );
            assert(grammar::value_tokens(v) =~= seq![SpecToken::BeginArray] + (
            grammar::values_tokens(items) + seq![SpecToken::EndArray]));
        },
        SpecValue::Object(es) => {
            let text = spec_text(v) + tail;
            let close = seq!['}'] + tail;
            let mid1 = spec_join_entries(es) + close;
            assert(text =~= seq!['{'] + mid1);
            lemma_emit_structural('{', mid1);
            assert(lex::structural_token('{') == SpecToken::BeginObject);
            assert(safe_tail(close));
            lemma_emit_entries(es, close);
            lemma_emit_structural('}', tail);
            assert(lex::structural_token('}') == SpecToken::EndObject);
            lemma_emits_append(
                mid1,
                grammar::entries_tokens(es),
                close,
                seq![SpecToken::EndObject],
                tail,
            );
            lemma_emits_append(
                text,
                seq![SpecToken::BeginObject],
                mid1,
                grammar::entries_tokens(es) + seq![SpecToken::EndObject],
                tail,
            );
            assert(grammar::value_tokens(v) =~= seq![SpecToken::BeginObject] + (
            grammar::entries_tokens(es) + seq![SpecToken::EndObject]));
        },
    }
}

/// The element run of an array emits exactly the elements' tokens with the
/// separating commas.
pub proof fn lemma_emit_values(items: Seq<SpecValue>, after: Seq<char>)
    requires
        grammar::wf_values(items),
        safe_tail(after),
    ensures
        emits(spec_join_values(items) + after, grammar::values_tokens(items), after),
    decreases items, 1int,
{
    if items.len() == 0 {
        assert(spec_join_values(items) + after =~= after);
        assert(emits(after, Seq::<SpecToken>::empty(), after));
        assert(grammar::values_tokens(items) == Seq::<SpecToken>::empty());
    } else if items.len() == 1 {
        assert(spec_join_values(items) == spec_text(items[0]));
        assert(grammar::values_tokens(items) == grammar::value_tokens(items[0]));
        lemma_emit_value(items[0], after);
    } else {
        let rest_text = spec_join_values(items.skip(1)) + after;
        let mid = seq![','] + rest_text;
        assert(spec_join_values(items) == spec_text(items[0]) + seq![','] + spec_join_values(
            items.skip(1),
        ));
        assert(spec_join_values(items) + after =~= spec_text(items[0]) + mid);
        assert(safe_tail(mid));
        lemma_emit_value(items[0], mid);
        lemma_emit_structural(',', rest_text);
        assert(lex::structural_token(',') == SpecToken::Comma);
        lemma_emit_values(items.skip(1), after);
        lemma_emits_append(
            mid,
            seq![SpecToken::Comma],
            rest_text,
            grammar::values_tokens(items.skip(1)),
            after,
        );
        lemma_emits_append(
            spec_text(items[0]) + mid,
            grammar::value_tokens(items[0]),
            mid,
            seq![SpecToken::Comma] + grammar::values_tokens(items.skip(1)),
            after,
        );
        assert(grammar::values_tokens(items) =~= grammar::value_tokens(items[0]) + (seq![
            SpecToken::Comma,
        ] + grammar::values_tokens(items.skip(1))));
    }
}

/// The pair run of an object emits exactly the pairs' tokens with the
/// separating commas.
pub proof fn lemma_emit_entries(es: Seq<(Seq<char>, SpecValue)>, after: Seq<char>)
    requires
        grammar::wf_entries(es),
        safe_tail(after),
    ensures
        emits(spec_join_entries(es) + after, grammar::entries_tokens(es), after),
    decreases es, 1int,
{
    if es.len() == 0 {
        assert(spec_join_entries(es) + after =~= after);
        assert(emits(after, Seq::<SpecToken>::empty(), after));
        assert(grammar::entries_tokens(es) == Seq::<SpecToken>::empty());
    } else {
        let e = es[0];
        let entry_end: Seq<char> = if es.len() == 1 {
            after
        } else {
            seq![','] + (spec_join_entries(es.skip(1)) + after)
        };
        assert(safe_tail(entry_end));
        // one entry: key text, colon, value text
        let after_colon = spec_text(e.1) + entry_end;
        let mid_colon = seq![':'] + after_colon;
        assert(spec_entry_text(e) + entry_end =~= spec_string_text(e.0) + mid_colon);
        lemma_emit_string(e.0, mid_colon);
        lemma_emit_structural(':', after_colon);
        assert(lex::structural_token(':') == SpecToken::Colon);
        lemma_emit_value(e.1, entry_end);
        lemma_emits_append(
            mid_colon,
            seq![SpecToken::Colon],
            after_colon,
            grammar::value_tokens(e.1),
            entry_end,
        );
        lemma_emits_append(
            spec_string_text(e.0) + mid_colon,
            seq![SpecToken::String(e.0)],
            mid_colon,
            seq![SpecToken::Colon] + grammar::value_tokens(e.1),
            entry_end,
        );
        assert(grammar::entry_tokens(e) =~= seq![SpecToken::String(e.0)] + (seq![
            SpecToken::Colon,
        ] + grammar::value_tokens(e.1)));
        assert(emits(spec_entry_text(e) + entry_end, grammar::entry_tokens(e), entry_end));
        if es.len() == 1 {
            assert(spec_join_entries(es) == spec_entry_text(e));
            assert(grammar::entries_tokens(es) == grammar::entry_tokens(e));
            assert(spec_join_entries(es) + after =~= spec_entry_text(e) + entry_end);
        } else {
            let rest_text = spec_join_entries(es.skip(1)) + after;
            assert(entry_end =~= seq![','] + rest_text);
            assert(spec_join_entries(es) == spec_entry_text(e) + seq![','] + spec_join_entries(
                es.skip(1),
            ));
            assert(spec_join_entries(es) + after =~= spec_entry_text(e) + entry_end);
            lemma_emit_structural(',', rest_text);
            assert(lex::structural_token(',') == SpecToken::Comma);
            lemma_emit_entries(es.skip(1), after);
            lemma_emits_append(
                entry_end,
                seq![SpecToken::Comma],
                rest_text,
                grammar::entries_tokens(es.skip(1)),
                after,
            );
            lemma_emits_append(
                spec_entry_text(e) + entry_end,
                grammar::entry_tokens(e),
                entry_end,
                seq![SpecToken::Comma] + grammar::entries_tokens(es.skip(1)),
                after,
            );
            assert(grammar::entries_tokens(es) =~= grammar::entry_tokens(e) + (seq![
                SpecToken::Comma,
            ] + grammar::entries_tokens(es.skip(1))));
        }
    }
}

/// The round trip: decoding a well-formed tree's own canonical
/// re-serialization reproduces exactly the tree.
pub proof fn lemma_decode_roundtrip(v: SpecValue)
    requires
        grammar::wf_value(v),
    ensures
        grammar::decode(spec_text(v)) == Ok::<SpecValue, ReadError>(v),
{
    lemma_emit_value(v, Seq::empty());
    assert(spec_text(v) + Seq::<char>::empty() =~= spec_text(v));
    lemma_value_tokens_no_eof(v);
    assert(lex::skip_ws(Seq::<char>::empty()) == Seq::<char>::empty());
    assert(lex::next_token(Seq::<char>::empty()) == Ok::<(SpecToken, Seq<char>), ReadError>(
        (SpecToken::Eof, Seq::empty()),
    ));
    assert(lex::tokens_from(Seq::<char>::empty()) == Ok::<Seq<SpecToken>, ReadError>(Seq::empty()));
    lemma_tokens_from_emits(spec_text(v), grammar::value_tokens(v), Seq::empty());
    assert(grammar::value_tokens(v) + Seq::<SpecToken>::empty() =~= grammar::value_tokens(v));
    grammar::lemma_parse_roundtrip(v);
}


// What follows shows that tokenization composes across a shard boundary
// that sits on a whitespace or structural character: the scanners never
// look past the character that ends their token, so appending more input
// behind a completed token changes nothing before it.

/// Skipping whitespace looks only at the front: it either strips the same
/// prefix regardless of what is appended, or strips a whole all-whitespace
/// input and continues into the appended part.
pub proof fn lemma_skip_ws_append(a: Seq<char>, b: Seq<char>)
    ensures
        lex::skip_ws(a).len() > 0 ==> lex::skip_ws(a + b) == lex::skip_ws(a) + b,
        lex::skip_ws(a).len() == 0 ==> lex::skip_ws(a + b) == lex::skip_ws(b),
    decreases a.len(),
{
    if a.len() == 0 {
        assert(a + b =~= b);
    } else if lex::is_ws(a[0]) {
        assert((a + b)[0] == a[0]);
        assert((a + b).skip(1) =~= a.skip(1) + b);
        lemma_skip_ws_append(a.skip(1), b);
    } else {
        assert((a + b)[0] == a[0]);
        assert(lex::skip_ws(a + b) == a + b);
        assert(lex::skip_ws(a) == a);
    }
}

/// Whatever whitespace skipping leaves is a suffix: a nonempty remainder
/// ends with the input's last character.
pub proof fn lemma_skip_ws_last(s: Seq<char>)
    ensures
        lex::skip_ws(s).len() > 0 ==> lex::skip_ws(s)[lex::skip_ws(s).len() - 1] == s[s.len() - 1],
    decreases s.len(),
{
    if s.len() > 0 && lex::is_ws(s[0]) {
        lemma_skip_ws_last(s.skip(1));
        if lex::skip_ws(s).len() > 0 {
            assert(s.skip(1)[s.skip(1).len() - 1] == s[s.len() - 1]);
        }
    }
}

/// String scanning never looks past the closing quote.
pub proof fn lemma_scan_string_local(x: Seq<char>, acc: Seq<char>, b: Seq<char>)
    ensures
        lex::scan_string(x, acc) matches Ok(p) ==> lex::scan_string(x + b, acc) == Ok::<
            (Seq<char>, Seq<char>),
            ReadError,
        >((p.0, p.1 + b)),
    decreases x.len(),
{
    if x.len() == 0 {
    } else {
        assert((x + b)[0] == x[0]);
        if x[0] == '"' {
            assert((x + b).skip(1) =~= x.skip(1) + b);
        } else if x[0] == '\\' {
            if x.len() > 1 {
                assert((x + b)[1] == x[1]);
                assert((x + b).len() > 1);
                match lex::unescape(x[1]) {
                    Some(c) => {
                        assert((x + b).skip(2) =~= x.skip(2) + b);
                        lemma_scan_string_local(x.skip(2), acc.push(c), b);
                    },
                    None => {},
                }
            }
        } else {
            assert((x + b).skip(1) =~= x.skip(1) + b);
            lemma_scan_string_local(x.skip(1), acc.push(x[0]), b);
        }
    }
}

/// A nonempty remainder of string scanning ends with the input's last
/// character.
pub proof fn lemma_scan_string_last(x: Seq<char>, acc: Seq<char>)
    ensures
        lex::scan_string(x, acc) matches Ok(p) ==> p.1.len() > 0 ==> p.1[p.1.len() - 1]
            == x[x.len() - 1],
    decreases x.len(),
{
    if x.len() == 0 {
    } else if x[0] == '"' {
        if x.skip(1).len() > 0 {
            assert(x.skip(1)[x.skip(1).len() - 1] == x[x.len() - 1]);
        }
    } else if x[0] == '\\' {
        if x.len() > 1 {
            match lex::unescape(x[1]) {
                Some(c) => {
                    lemma_scan_string_last(x.skip(2), acc.push(c));
                    if x.skip(2).len() > 0 {
                        assert(x.skip(2)[x.skip(2).len() - 1] == x[x.len() - 1]);
                    }
                },
                None => {},
            }
        }
    } else {
        lemma_scan_string_last(x.skip(1), acc.push(x[0]));
        if x.skip(1).len() > 0 {
            assert(x.skip(1)[x.skip(1).len() - 1] == x[x.len() - 1]);
        }
    }
}

/// A character a number scan consumes or stops at: only a stop character
/// ever ends a number before the input does.
pub open spec fn is_number_char(c: char) -> bool {
    lex::is_digit(c) || c == '.' || c == 'e' || c == 'E' || c == '+' || c == '-'
}

/// Number scanning stops at the first character that belongs to no part and
/// never looks past it; if it consumes the whole input, every character —
/// the last in particular — was a number character.
#[verifier::rlimit(50)]
pub proof fn lemma_scan_number_local(x: Seq<char>, st: NumState, n: SpecNumber, b: Seq<char>)
    ensures
        lex::scan_number(x, st, n) is Ok && lex::scan_number(x, st, n)->Ok_0.1.len() > 0
            ==> lex::scan_number(x + b, st, n) == Ok::<(SpecNumber, Seq<char>), ReadError>(
            (lex::scan_number(x, st, n)->Ok_0.0, lex::scan_number(x, st, n)->Ok_0.1 + b),
        ),
        lex::scan_number(x, st, n) is Ok && lex::scan_number(x, st, n)->Ok_0.1.len() > 0
            ==> lex::scan_number(x, st, n)->Ok_0.1[lex::scan_number(x, st, n)->Ok_0.1.len() - 1]
            == x[x.len() - 1],
        lex::scan_number(x, st, n) is Ok && lex::scan_number(x, st, n)->Ok_0.1.len() == 0
            && x.len() > 0 ==> is_number_char(x[x.len() - 1]),
    decreases x.len(),
{
    if x.len() == 0 {
        assert(lex::scan_number(x, st, n) == Ok::<(SpecNumber, Seq<char>), ReadError>((n, x)));
        assert(lex::scan_number(x, st, n)->Ok_0.1.len() == 0);
    } else {
        assert((x + b)[0] == x[0]);
        if lex::is_digit(x[0]) {
            assert((x + b).skip(1) =~= x.skip(1) + b);
            lemma_scan_number_local(x.skip(1), st, lex::push_digit(n, st, x[0]), b);
            if x.skip(1).len() > 0 {
                assert(x.skip(1)[x.skip(1).len() - 1] == x[x.len() - 1]);
            }
            assert(lex::scan_number(x, st, n) is Ok && lex::scan_number(x, st, n)->Ok_0.1.len() > 0
                ==> lex::scan_number(x + b, st, n) == Ok::<(SpecNumber, Seq<char>), ReadError>(
                (lex::scan_number(x, st, n)->Ok_0.0, lex::scan_number(x, st, n)->Ok_0.1 + b),
            ));
        } else if x[0] == '.' {
            if !(st is Integer) {
                assert(lex::scan_number(x, st, n) is Err);
            }
            if st is Integer {
                assert((x + b).skip(1) =~= x.skip(1) + b);
                lemma_scan_number_local(x.skip(1), NumState::Fraction, n, b);
                if x.skip(1).len() > 0 {
                    assert(x.skip(1)[x.skip(1).len() - 1] == x[x.len() - 1]);
                }
                assert(lex::scan_number(x, st, n) is Ok && lex::scan_number(x, st, n)->Ok_0.1.len() > 0
                ==> lex::scan_number(x + b, st, n) == Ok::<(SpecNumber, Seq<char>), ReadError>(
                (lex::scan_number(x, st, n)->Ok_0.0, lex::scan_number(x, st, n)->Ok_0.1 + b),
            ));
            }
        } else if x[0] == 'e' || x[0] == 'E' {
            if st is Exponent {
                assert(lex::scan_number(x, st, n) is Err);
            } else if x.len() >= 2 && (x[1] == '+' || x[1] == '-') {
                assert((x + b).len() >= 2);
                assert((x + b)[1] == x[1]);
                assert((x + b).skip(2) =~= x.skip(2) + b);
                lemma_scan_number_local(
                    x.skip(2),
                    NumState::Exponent,
                    SpecNumber { exp_neg: x[1] == '-', ..n },
                    b,
                );
                if x.skip(2).len() > 0 {
                    assert(x.skip(2)[x.skip(2).len() - 1] == x[x.len() - 1]);
                }
                assert(lex::scan_number(x, st, n) is Ok && lex::scan_number(x, st, n)->Ok_0.1.len() > 0
                ==> lex::scan_number(x + b, st, n) == Ok::<(SpecNumber, Seq<char>), ReadError>(
                (lex::scan_number(x, st, n)->Ok_0.0, lex::scan_number(x, st, n)->Ok_0.1 + b),
            ));
            } else {
                // the marker is the last character, or what follows it is
                // neither sign: appending cannot add a sign in between
                if x.len() >= 2 {
                    assert((x + b).len() >= 2);
                    assert((x + b)[1] == x[1]);
                    assert((x + b).skip(1) =~= x.skip(1) + b);
                    lemma_scan_number_local(x.skip(1), NumState::Exponent, n, b);
                    if x.skip(1).len() > 0 {
                        assert(x.skip(1)[x.skip(1).len() - 1] == x[x.len() - 1]);
                    }
                    assert(lex::scan_number(x, st, n) is Ok && lex::scan_number(x, st, n)->Ok_0.1.len() > 0
                ==> lex::scan_number(x + b, st, n) == Ok::<(SpecNumber, Seq<char>), ReadError>(
                (lex::scan_number(x, st, n)->Ok_0.0, lex::scan_number(x, st, n)->Ok_0.1 + b),
            ));
                } else {
                    // the whole input was the single exponent marker
                    assert(x[x.len() - 1] == x[0]);
                    assert(x.skip(1).len() == 0);
                    assert(lex::scan_number(x.skip(1), NumState::Exponent, n) == Ok::<
                        (SpecNumber, Seq<char>),
                        ReadError,
                    >((n, x.skip(1))));
                    assert(lex::scan_number(x, st, n)->Ok_0.1.len() == 0);
                }
            }
        } else {
            // the scan stops here without consuming; the stop is the same
            // with anything appended
            assert(lex::scan_number(x, st, n) == Ok::<(SpecNumber, Seq<char>), ReadError>((n, x)));
            assert(lex::scan_number(x + b, st, n) == Ok::<(SpecNumber, Seq<char>), ReadError>(
                (n, x + b),
            ));
            assert(lex::scan_number(x, st, n) is Ok && lex::scan_number(x, st, n)->Ok_0.1.len() > 0
                ==> lex::scan_number(x + b, st, n) == Ok::<(SpecNumber, Seq<char>), ReadError>(
                (lex::scan_number(x, st, n)->Ok_0.0, lex::scan_number(x, st, n)->Ok_0.1 + b),
            ));
        }
    }
}


/// One lexical step never looks past the token it returns, provided the
/// input ends on a whitespace or structural character (so no token can run
/// up against the end and be extended by appended input): appending more
/// input yields the same token with the appended part behind the rest, and a
/// nonempty rest still ends on that final character.
pub proof fn lemma_next_token_local(a: Seq<char>, b: Seq<char>)
    requires
        a.len() > 0,
        is_cut_char(a[a.len() - 1]),
        lex::next_token(a) is Ok,
        !(lex::next_token(a)->Ok_0.0 is Eof),
    ensures
        lex::next_token(a + b) == Ok::<(SpecToken, Seq<char>), ReadError>(
            (lex::next_token(a)->Ok_0.0, lex::next_token(a)->Ok_0.1 + b),
        ),
        lex::next_token(a)->Ok_0.1.len() > 0 ==> lex::next_token(a)->Ok_0.1[lex::next_token(
            a,
        )->Ok_0.1.len() - 1] == a[a.len() - 1],
{
    let u = lex::skip_ws(a);
    lemma_skip_ws_append(a, b);
    lemma_skip_ws_last(a);
    assert(u.len() > 0);
    assert(u[u.len() - 1] == a[a.len() - 1]);
    assert(lex::skip_ws(a + b) == u + b);
    assert((u + b)[0] == u[0]);
    let rest = lex::next_token(a)->Ok_0.1;
    if lex::is_structural(u[0]) {
        assert(rest == u.skip(1));
        assert((u + b).skip(1) =~= u.skip(1) + b);
        if rest.len() > 0 {
            assert(rest[rest.len() - 1] == u[u.len() - 1]);
        }
    } else if u[0] == '"' {
        match lex::scan_string(u.skip(1), Seq::empty()) {
            Ok(p) => {
                lemma_scan_string_local(u.skip(1), Seq::empty(), b);
                assert((u + b).skip(1) =~= u.skip(1) + b);
                lemma_scan_string_last(u.skip(1), Seq::empty());
                if p.1.len() > 0 {
                    lex::lemma_scan_string_len(u.skip(1), Seq::empty());
                    assert(u.skip(1).len() > 0);
                    assert(u.skip(1)[u.skip(1).len() - 1] == u[u.len() - 1]);
                }
            },
            Err(_) => {
                assert(false);
            },
        }
    } else if u[0] == 'n' || u[0] == 't' || u[0] == 'f' {
        let lit: Seq<char> = if u[0] == 'n' {
            lex::null_lit()
        } else if u[0] == 't' {
            lex::true_lit()
        } else {
            lex::false_lit()
        };
        match lex::scan_exact(u, lit) {
            Ok(r) => {
                let ll = lit.len() as int;
                assert(u.len() >= ll);
                assert((u + b).len() >= ll);
                assert((u + b).take(ll) =~= u.take(ll));
                assert((u + b).skip(ll) =~= u.skip(ll) + b);
                assert(lex::scan_exact(u + b, lit) == Ok::<Seq<char>, ReadError>(u.skip(ll) + b));
                if r.len() > 0 {
                    assert(u.skip(ll)[u.skip(ll).len() - 1] == u[u.len() - 1]);
                }
            },
            Err(_) => {
                assert(false);
            },
        }
    } else if lex::is_digit(u[0]) || u[0] == '-' {
        match lex::scan_number_start(u) {
            Ok(p) => {
                // a number that ran to the very end would make the final
                // character a number character, never a safe cut
                assert(!is_cut_char('.') && !is_cut_char('e') && !is_cut_char('E') && !is_cut_char(
                    '+',
                ) && !is_cut_char('-'));
                if u[0] == '-' {
                    let x = u.skip(1);
                    lemma_scan_number_local(
                        x,
                        NumState::Integer,
                        SpecNumber { neg: true, ..SpecNumber::zero() },
                        b,
                    );
                    if p.1.len() == 0 {
                        if x.len() == 0 {
                            assert(u.len() == 1);
                            assert(u[u.len() - 1] == '-');
                            assert(false);
                        } else {
                            assert(is_number_char(x[x.len() - 1]));
                            assert(x[x.len() - 1] == u[u.len() - 1]);
                            assert(!is_cut_char(u[u.len() - 1]));
                            assert(false);
                        }
                    }
                    assert((u + b)[0] == '-');
                    assert((u + b).skip(1) =~= x + b);
                    assert(lex::scan_number_start(u + b) == Ok::<
                        (SpecNumber, Seq<char>),
                        ReadError,
                    >((p.0, p.1 + b)));
                    assert(x.len() > 0);
                    assert(p.1[p.1.len() - 1] == x[x.len() - 1]);
                    assert(x[x.len() - 1] == u[u.len() - 1]);
                } else {
                    lemma_scan_number_local(u, NumState::Integer, SpecNumber::zero(), b);
                    if p.1.len() == 0 {
                        assert(is_number_char(u[u.len() - 1]));
                        assert(!is_cut_char(u[u.len() - 1]));
                        assert(false);
                    }
                    assert((u + b)[0] == u[0]);
                    assert(lex::is_digit((u + b)[0]));
                    assert(lex::scan_number_start(u + b) == Ok::<
                        (SpecNumber, Seq<char>),
                        ReadError,
                    >((p.0, p.1 + b)));
                }
            },
            Err(_) => {
                assert(false);
            },
        }
    } else {
        assert(false);
    }
}

/// Tokenization composes across a boundary that ends on a whitespace or
/// structural character: when the first part tokenizes on its own, the whole
/// input's tokens are the first part's tokens followed by whatever the
/// second part gives, with the second part's error surfacing unchanged.
pub proof fn lemma_tokens_concat(a: Seq<char>, b: Seq<char>)
    requires
        a.len() > 0,
        is_cut_char(a[a.len() - 1]),
        lex::tokens_from(a) is Ok,
    ensures
        lex::tokens_from(a + b) == (match lex::tokens_from(b) {
            Ok(t2) => Ok::<Seq<SpecToken>, ReadError>(lex::tokens_from(a)->Ok_0 + t2),
            Err(e) => Err::<Seq<SpecToken>, ReadError>(e),
        }),
    decreases a.len(),
{
    lex::lemma_next_token_progress(a);
    lex::lemma_next_token_progress(a + b);
    lex::lemma_next_token_progress(b);
    match lex::next_token(a) {
        Err(_) => {
            assert(false);
        },
        Ok((tok, rest)) => {
            if tok is Eof {
                // the first part is all whitespace
                assert(lex::skip_ws(a).len() == 0);
                lemma_skip_ws_append(a, b);
                assert(lex::skip_ws(a + b) == lex::skip_ws(b));
                assert(lex::next_token(a + b) == lex::next_token(b));
                assert(lex::tokens_from(a) == Ok::<Seq<SpecToken>, ReadError>(Seq::empty()));
                match lex::next_token(b) {
                    Err(e) => {
                        assert(lex::tokens_from(a + b) == lex::tokens_from(b));
                    },
                    Ok((tok2, rest2)) => {
                        if tok2 is Eof {
                            assert(lex::tokens_from(a + b) == lex::tokens_from(b));
                        } else {
                            assert(rest2.len() < b.len());
                            assert(rest2.len() < (a + b).len());
                            assert(lex::tokens_from(a + b) == lex::tokens_from(b));
                        }
                    },
                }
                match lex::tokens_from(b) {
                    Ok(t2) => {
                        assert(Seq::<SpecToken>::empty() + t2 =~= t2);
                    },
                    Err(_) => {},
                }
            } else {
                lemma_next_token_local(a, b);
                assert(rest.len() < a.len());
                if rest.len() == 0 {
                    assert(rest + b =~= b);
                    assert(lex::skip_ws(Seq::<char>::empty()) == Seq::<char>::empty());
                    assert(lex::next_token(Seq::<char>::empty()) == Ok::<
                        (SpecToken, Seq<char>),
                        ReadError,
                    >((SpecToken::Eof, Seq::empty())));
                    assert(lex::tokens_from(rest) == Ok::<Seq<SpecToken>, ReadError>(Seq::empty()));
                    assert(lex::tokens_from(a) == Ok::<Seq<SpecToken>, ReadError>(seq![tok]));
                    match lex::tokens_from(b) {
                        Ok(t2) => {
                            assert(lex::tokens_from(a + b) == Ok::<Seq<SpecToken>, ReadError>(
                                seq![tok] + t2,
                            ));
                        },
                        Err(_) => {},
                    }
                } else {
                    assert(rest[rest.len() - 1] == a[a.len() - 1]);
                    lemma_tokens_concat(rest, b);
                    let t1r = lex::tokens_from(rest)->Ok_0;
                    assert(lex::tokens_from(a) == Ok::<Seq<SpecToken>, ReadError>(
                        seq![tok] + t1r,
                    ));
                    match lex::tokens_from(b) {
                        Ok(t2) => {
                            assert(lex::tokens_from(rest + b) == Ok::<Seq<SpecToken>, ReadError>(
                                t1r + t2,
                            ));
                            assert((rest + b).len() < (a + b).len());
                            assert(lex::tokens_from(a + b) == Ok::<Seq<SpecToken>, ReadError>(
                                seq![tok] + (t1r + t2),
                            ));
                            assert(seq![tok] + (t1r + t2) =~= (seq![tok] + t1r) + t2);
                        },
                        Err(e) => {
                            assert(lex::tokens_from(rest + b) == Err::<Seq<SpecToken>, ReadError>(
                                e,
                            ));
                            assert((rest + b).len() < (a + b).len());
                            assert(lex::tokens_from(a + b) == Err::<Seq<SpecToken>, ReadError>(e));
                        },
                    }
                }
            }
        },
    }
}


/// Joining the tokens of boundary-safe shards in shard order gives exactly
/// the tokens of the text they cover, whenever every shard tokenizes on its
/// own.
pub proof fn lemma_merge_agree(s: Seq<char>, cuts: Seq<int>, from: int)
    requires
        0 <= from <= s.len(),
        forall|p: int| 0 <= p < cuts.len() ==> is_cut_char(s[#[trigger] cuts[p]]),
        forall|p: int| 0 <= p < cuts.len() ==> 0 <= #[trigger] cuts[p] < s.len(),
        forall|p: int| 0 <= p < cuts.len() - 1 ==> #[trigger] cuts[p] <= cuts[p + 1],
        cuts.len() > 0 ==> from <= cuts[0] + 1,
        merge_shard_tokens(shards_of(s, cuts, from)) is Ok,
    ensures
        lex::tokens_from(s.subrange(from, s.len() as int)) == merge_shard_tokens(
            shards_of(s, cuts, from),
        ),
    decreases cuts.len(),
{
    let whole = s.subrange(from, s.len() as int);
    if cuts.len() == 0 {
        let sh = shards_of(s, cuts, from);
        assert(sh[0] == whole);
        assert(sh.skip(1) =~= Seq::<Seq<char>>::empty());
        assert(merge_shard_tokens(sh.skip(1)) == Ok::<Seq<SpecToken>, ReadError>(Seq::empty()));
        match lex::tokens_from(whole) {
            Ok(ts) => {
                assert(ts + Seq::<SpecToken>::empty() =~= ts);
            },
            Err(_) => {
                assert(merge_shard_tokens(sh) is Err);
            },
        }
    } else {
        let c0 = cuts[0];
        let first = s.subrange(from, c0 + 1);
        let sh = shards_of(s, cuts, from);
        let rest_sh = shards_of(s, cuts.skip(1), c0 + 1);
        assert(sh[0] == first);
        assert(sh.skip(1) =~= rest_sh);
        assert(merge_shard_tokens(sh.skip(1)) == merge_shard_tokens(rest_sh));
        assert(lex::tokens_from(first) is Ok);
        assert(merge_shard_tokens(rest_sh) is Ok);
        assert forall|p: int| 0 <= p < cuts.skip(1).len() implies is_cut_char(
            s[#[trigger] cuts.skip(1)[p]],
        ) && 0 <= cuts.skip(1)[p] < s.len() by {
            assert(cuts.skip(1)[p] == cuts[p + 1]);
        }
        assert forall|p: int| 0 <= p < cuts.skip(1).len() - 1 implies #[trigger] cuts.skip(1)[p]
            <= cuts.skip(1)[p + 1] by {
            assert(cuts.skip(1)[p] == cuts[p + 1]);
            assert(cuts.skip(1)[p + 1] == cuts[p + 2]);
        }
        if cuts.skip(1).len() > 0 {
            assert(cuts.skip(1)[0] == cuts[1]);
            assert(cuts[0] <= cuts[1]);
        }
        lemma_merge_agree(s, cuts.skip(1), c0 + 1);
        let rest_text = s.subrange(c0 + 1, s.len() as int);
        if first.len() == 0 {
            assert(from == c0 + 1);
            assert(whole =~= rest_text);
            assert(lex::skip_ws(Seq::<char>::empty()) == Seq::<char>::empty());
            assert(lex::next_token(Seq::<char>::empty()) == Ok::<(SpecToken, Seq<char>), ReadError>(
                (SpecToken::Eof, Seq::empty()),
            ));
            assert(lex::tokens_from(first) == Ok::<Seq<SpecToken>, ReadError>(Seq::empty()));
            match merge_shard_tokens(rest_sh) {
                Ok(tr) => {
                    assert(Seq::<SpecToken>::empty() + tr =~= tr);
                },
                Err(_) => {},
            }
        } else {
            assert(first[first.len() - 1] == s[c0]);
            assert(is_cut_char(first[first.len() - 1]));
            assert(first + rest_text =~= whole);
            lemma_tokens_concat(first, rest_text);
        }
    }
}

/// Agreement of the sharded and the single-threaded lexical pass: whenever
/// the sharded pass succeeds, it produced exactly the tokens of the whole
/// input.  (Splitting is conservative: on some inputs the sharded pass
/// reports a partition error where the single pass succeeds; it never
/// succeeds with different tokens.)
pub proof fn lemma_sharded_tokens_agree(s: Seq<char>, n: int)
    requires
        2 <= n,
        spec_multi_tokens(s, n) is Ok,
    ensures
        lex::tokens_from(s) == spec_multi_tokens(s, n),
{
    let cuts = spec_scan(s, n)->Ok_0;
    crate::multi_tokenizer::lemma_split_safety(s, n);
    assert forall|p: int| 0 <= p < cuts.len() implies is_cut_char(s[#[trigger] cuts[p]]) && 0
        <= cuts[p] < s.len() by {
        assert(legal_cut(s, cuts[p]));
    }
    lemma_merge_agree(s, cuts, 0);
    assert(s.subrange(0, s.len() as int) =~= s);
}

} // verus!
