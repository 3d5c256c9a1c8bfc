use vstd::prelude::*;

use crate::error::ReadError;
use crate::token::{SpecNumber, SpecToken};

verus! {

/// ASCII whitespace, exactly the characters the lexical pass skips.
pub open spec fn is_ws(c: char) -> bool {
    c == ' ' || c == '\t' || c == '\n' || c == '\r' || c == '\u{000C}'
}

/// An ASCII decimal digit.
pub open spec fn is_digit(c: char) -> bool {
    '0' as int <= c as int && c as int <= '9' as int
}

/// The single-character structural tokens.
pub open spec fn is_structural(c: char) -> bool {
    c == '{' || c == '}' || c == '[' || c == ']' || c == ':' || c == ','
}

/// The token a single structural character stands for.
pub open spec fn structural_token(c: char) -> SpecToken
    recommends
        is_structural(c),
{
    if c == '{' {
        SpecToken::BeginObject
    } else if c == '}' {
        SpecToken::EndObject
    } else if c == '[' {
        SpecToken::BeginArray
    } else if c == ']' {
        SpecToken::EndArray
    } else if c == ':' {
        SpecToken::Colon
    } else {
        SpecToken::Comma
    }
}

/// What the character after a backslash stands for inside a string literal,
/// or `None` when the escape sequence is unsupported.  The supported set is
/// applied uniformly by every tokenizer strategy: unsupported escapes are
/// rejected, never passed through.
pub open spec fn unescape(c: char) -> Option<char> {
    if c == '/' {
        Some('/')
    } else if c == '\\' {
        Some('\\')
    } else if c == '"' {
        Some('"')
    } else if c == 't' {
        Some('\t')
    } else if c == 'n' {
        Some('\n')
    } else if c == 'r' {
        Some('\r')
    } else {
        None
    }
}

/// The input with its leading whitespace dropped.
pub open spec fn skip_ws(s: Seq<char>) -> Seq<char>
    decreases s.len(),
{
    if s.len() > 0 && is_ws(s[0]) {
        skip_ws(s.skip(1))
    } else {
        s
    }
}

/// String scanning, entered just after the opening quote: accumulates units
/// until an unescaped closing quote.  Returns the payload and the input that
/// follows the closing quote.
pub open spec fn scan_string(s: Seq<char>, acc: Seq<char>) -> Result<(Seq<char>, Seq<char>), ReadError>
    decreases s.len(),
{
    if s.len() == 0 {
        Err(ReadError::Eof)
    } else if s[0] == '"' {
        Ok((acc, s.skip(1)))
    } else if s[0] == '\\' {
        if s.len() == 1 {
            Err(ReadError::Eof)
        } else {
            match unescape(s[1]) {
                Some(c) => scan_string(s.skip(2), acc.push(c)),
                None => Err(ReadError::IllegalEscape),
            }
        }
    } else {
        scan_string(s.skip(1), acc.push(s[0]))
    }
}

/// The three states of number scanning.
#[derive(Clone, Copy, Debug, PartialEq)]
pub enum NumState {
    Integer,
    Fraction,
    Exponent,
}

/// The number with one more digit recorded in the part the state selects.
pub open spec fn push_digit(n: SpecNumber, st: NumState, c: char) -> SpecNumber {
    match st {
        NumState::Integer => SpecNumber { int_digits: n.int_digits.push(c), ..n },
        NumState::Fraction => SpecNumber { frac_digits: n.frac_digits.push(c), ..n },
        NumState::Exponent => SpecNumber { exp_digits: n.exp_digits.push(c), ..n },
    }
}

/// Number scanning proper: a three-state machine over integer part,
/// fraction part and exponent part.  A `.` is only legal in the integer
/// part; a second exponent marker is an error; an optional sign directly
/// after the exponent marker is consumed, any other character after the
/// marker is left in place.  Scanning ends at the first character that
/// belongs to no part, which is not consumed.
pub open spec fn scan_number(s: Seq<char>, st: NumState, n: SpecNumber) -> Result<
    (SpecNumber, Seq<char>),
    ReadError,
>
    decreases s.len(),
{
    if s.len() == 0 {
        Ok((n, s))
    } else if is_digit(s[0]) {
        scan_number(s.skip(1), st, push_digit(n, st, s[0]))
    } else if s[0] == '.' {
        if st is Integer {
            scan_number(s.skip(1), NumState::Fraction, n)
        } else {
            Err(ReadError::IllegalToken)
        }
    } else if s[0] == 'e' || s[0] == 'E' {
        if st is Exponent {
            Err(ReadError::IllegalToken)
        } else if s.len() >= 2 && (s[1] == '+' || s[1] == '-') {
            scan_number(s.skip(2), NumState::Exponent, SpecNumber { exp_neg: s[1] == '-', ..n })
        } else {
            scan_number(s.skip(1), NumState::Exponent, n)
        }
    } else {
        Ok((n, s))
    }
}

/// Number scanning from its first character: an optional leading `-` sets
/// the sign, then the three-state machine runs from the integer part.
pub open spec fn scan_number_start(s: Seq<char>) -> Result<(SpecNumber, Seq<char>), ReadError> {
    if s.len() > 0 && s[0] == '-' {
        scan_number(s.skip(1), NumState::Integer, SpecNumber { neg: true, ..SpecNumber::zero() })
    } else {
        scan_number(s, NumState::Integer, SpecNumber::zero())
    }
}

/// Fixed-literal matching: the input must start with the exact literal;
/// any mismatch, including early end of input, is a token error.
pub open spec fn scan_exact(s: Seq<char>, lit: Seq<char>) -> Result<Seq<char>, ReadError> {
    if s.len() >= lit.len() && s.take(lit.len() as int) == lit {
        Ok(s.skip(lit.len() as int))
    } else {
        Err(ReadError::IllegalToken)
    }
}

pub open spec fn null_lit() -> Seq<char> {
    seq!['n', 'u', 'l', 'l']
}

pub open spec fn true_lit() -> Seq<char> {
    seq!['t', 'r', 'u', 'e']
}

pub open spec fn false_lit() -> Seq<char> {
    seq!['f', 'a', 'l', 's', 'e']
}

/// One step of the lexical pass: skip whitespace, then dispatch on the first
/// remaining character.  End of input yields the end-of-input token rather
/// than an error, so callers can loop uniformly until end of input.
pub open spec fn next_token(s: Seq<char>) -> Result<(SpecToken, Seq<char>), ReadError> {
    let t = skip_ws(s);
    if t.len() == 0 {
        Ok((SpecToken::Eof, t))
    } else if is_structural(t[0]) {
        Ok((structural_token(t[0]), t.skip(1)))
    } else if t[0] == '"' {
        match scan_string(t.skip(1), Seq::empty()) {
            Ok((p, rest)) => Ok((SpecToken::String(p), rest)),
            Err(e) => Err(e),
        }
    } else if t[0] == 'n' {
        match scan_exact(t, null_lit()) {
            Ok(rest) => Ok((SpecToken::Null, rest)),
            Err(e) => Err(e),
        }
    } else if t[0] == 't' {
        match scan_exact(t, true_lit()) {
            Ok(rest) => Ok((SpecToken::Boolean(true), rest)),
            Err(e) => Err(e),
        }
    } else if t[0] == 'f' {
        match scan_exact(t, false_lit()) {
            Ok(rest) => Ok((SpecToken::Boolean(false), rest)),
            Err(e) => Err(e),
        }
    } else if is_digit(t[0]) || t[0] == '-' {
        match scan_number_start(t) {
            Ok((n, rest)) => Ok((SpecToken::Number(n), rest)),
            Err(e) => Err(e),
        }
    } else {
        Err(ReadError::IllegalChar(t[0]))
    }
}

/// The whole lexical pass: the ordered sequence of tokens before the
/// end-of-input marker, or the first error.  The guarded recursion is total;
/// [`lemma_next_token_progress`] shows the guard never fails, so the final
/// branch is never the result.
pub open spec fn tokens_from(s: Seq<char>) -> Result<Seq<SpecToken>, ReadError>
    decreases s.len(),
{
    match next_token(s) {
        Err(e) => Err(e),
        Ok((t, rest)) => if t is Eof {
            Ok(Seq::empty())
        } else if rest.len() < s.len() {
            match tokens_from(rest) {
                Err(e) => Err(e),
                Ok(ts) => Ok(seq![t] + ts),
            }
        } else {
            Err(ReadError::Eof)
        },
    }
}

pub proof fn lemma_skip_ws_len(s: Seq<char>)
    ensures
        skip_ws(s).len() <= s.len(),
    decreases s.len(),
{
    if s.len() > 0 && is_ws(s[0]) {
        lemma_skip_ws_len(s.skip(1));
    }
}

pub proof fn lemma_scan_string_len(s: Seq<char>, acc: Seq<char>)
    ensures
        scan_string(s, acc) is Ok ==> scan_string(s, acc)->Ok_0.1.len() < s.len(),
    decreases s.len(),
{
    if s.len() == 0 {
    } else if s[0] == '"' {
    } else if s[0] == '\\' {
        if s.len() > 1 {
            match unescape(s[1]) {
                Some(c) => lemma_scan_string_len(s.skip(2), acc.push(c)),
                None => {},
            }
        }
    } else {
        lemma_scan_string_len(s.skip(1), acc.push(s[0]));
    }
}

pub proof fn lemma_scan_number_len(s: Seq<char>, st: NumState, n: SpecNumber)
    ensures
        scan_number(s, st, n) is Ok ==> scan_number(s, st, n)->Ok_0.1.len() <= s.len(),
    decreases s.len(),
{
    if s.len() == 0 {
    } else if is_digit(s[0]) {
        lemma_scan_number_len(s.skip(1), st, push_digit(n, st, s[0]));
    } else if s[0] == '.' {
        if st is Integer {
            lemma_scan_number_len(s.skip(1), NumState::Fraction, n);
        }
    } else if s[0] == 'e' || s[0] == 'E' {
        if st is Exponent {
        } else if s.len() >= 2 && (s[1] == '+' || s[1] == '-') {
            lemma_scan_number_len(
                s.skip(2),
                NumState::Exponent,
                SpecNumber { exp_neg: s[1] == '-', ..n },
            );
        } else {
            lemma_scan_number_len(s.skip(1), NumState::Exponent, n);
        }
    }
}

/// A successful non-end token consumes at least one unit; no step ever
/// leaves more input than it was given.
pub proof fn lemma_next_token_progress(s: Seq<char>)
    ensures
        next_token(s) is Ok ==> next_token(s)->Ok_0.1.len() <= s.len(),
        next_token(s) is Ok && !(next_token(s)->Ok_0.0 is Eof) ==> next_token(s)->Ok_0.1.len()
            < s.len(),
{
    lemma_skip_ws_len(s);
    let t = skip_ws(s);
    if t.len() == 0 {
    } else if is_structural(t[0]) {
    } else if t[0] == '"' {
        lemma_scan_string_len(t.skip(1), Seq::empty());
    } else if t[0] == 'n' || t[0] == 't' || t[0] == 'f' {
    } else if is_digit(t[0]) || t[0] == '-' {
        if t[0] == '-' {
            lemma_scan_number_len(t.skip(1), NumState::Integer, SpecNumber { neg: true, ..SpecNumber::zero() });
        } else {
            lemma_scan_number_len(
                t.skip(1),
                NumState::Integer,
                push_digit(SpecNumber::zero(), NumState::Integer, t[0]),
            );
        }
    }
}

/// A number whose recorded parts the lexical pass can read back: every part
/// holds decimal digits only, and a number without a sign has at least one
/// integer digit (so its text does not begin mid-token).  Every number the
/// lexical pass emits is of this shape.
pub open spec fn wf_number(n: SpecNumber) -> bool {
    &&& forall|i: int| 0 <= i < n.int_digits.len() ==> is_digit(#[trigger] n.int_digits[i])
    &&& forall|i: int| 0 <= i < n.frac_digits.len() ==> is_digit(#[trigger] n.frac_digits[i])
    &&& forall|i: int| 0 <= i < n.exp_digits.len() ==> is_digit(#[trigger] n.exp_digits[i])
    &&& !n.neg ==> n.int_digits.len() > 0
}

/// Bytes read as units, each byte standing for the character with the same
/// code: the unit sequence the byte-oriented lexical pass works on.
pub open spec fn latin1(b: Seq<u8>) -> Seq<char> {
    b.map(|i: int, x: u8| x as char)
}

/// The byte-oriented lexical pass reports an unusable dispatch character as
/// the byte it read.
pub open spec fn to_byte_err(e: ReadError) -> ReadError {
    match e {
        ReadError::IllegalChar(c) => ReadError::IllegalByte(c as u8),
        _ => e,
    }
}

/// String scanning fails only by running out of input or by an unsupported
/// escape.
pub proof fn lemma_scan_string_err(s: Seq<char>, acc: Seq<char>)
    ensures
        scan_string(s, acc) is Err ==> (scan_string(s, acc)->Err_0 is Eof || scan_string(
            s,
            acc,
        )->Err_0 is IllegalEscape),
    decreases s.len(),
{
    if s.len() > 0 && s[0] != '"' && s[0] == '\\' && s.len() > 1 {
        match unescape(s[1]) {
            Some(c) => lemma_scan_string_err(s.skip(2), acc.push(c)),
            None => {},
        }
    } else if s.len() > 0 && s[0] != '"' && s[0] != '\\' {
        lemma_scan_string_err(s.skip(1), acc.push(s[0]));
    }
}

/// Number scanning fails only on a malformed token.
pub proof fn lemma_scan_number_err(s: Seq<char>, st: NumState, n: SpecNumber)
    ensures
        scan_number(s, st, n) is Err ==> scan_number(s, st, n)->Err_0 is IllegalToken,
    decreases s.len(),
{
    if s.len() == 0 {
    } else if is_digit(s[0]) {
        lemma_scan_number_err(s.skip(1), st, push_digit(n, st, s[0]));
    } else if s[0] == '.' {
        if st is Integer {
            lemma_scan_number_err(s.skip(1), NumState::Fraction, n);
        }
    } else if s[0] == 'e' || s[0] == 'E' {
        if st is Exponent {
        } else if s.len() >= 2 && (s[1] == '+' || s[1] == '-') {
            lemma_scan_number_err(
                s.skip(2),
                NumState::Exponent,
                SpecNumber { exp_neg: s[1] == '-', ..n },
            );
        } else {
            lemma_scan_number_err(s.skip(1), NumState::Exponent, n);
        }
    }
}

pub proof fn lemma_scan_number_start_err(s: Seq<char>)
    ensures
        scan_number_start(s) is Err ==> scan_number_start(s)->Err_0 is IllegalToken,
{
    if s.len() > 0 && s[0] == '-' {
        lemma_scan_number_err(
            s.skip(1),
            NumState::Integer,
            SpecNumber { neg: true, ..SpecNumber::zero() },
        );
    } else {
        lemma_scan_number_err(s, NumState::Integer, SpecNumber::zero());
    }
}

pub proof fn lemma_latin1_skip(s: Seq<u8>, n: int)
    requires
        0 <= n <= s.len(),
    ensures
        latin1(s.skip(n)) == latin1(s).skip(n),
{
    assert(latin1(s.skip(n)) =~= latin1(s).skip(n));
}

pub proof fn lemma_latin1_take(s: Seq<u8>, n: int)
    requires
        0 <= n <= s.len(),
    ensures
        latin1(s.take(n)) == latin1(s).take(n),
{
    assert(latin1(s.take(n)) =~= latin1(s).take(n));
}

/// Reading bytes as characters loses nothing: two byte sequences agree
/// exactly when their character readings do.
pub proof fn lemma_latin1_inj(a: Seq<u8>, b: Seq<u8>)
    ensures
        latin1(a) == latin1(b) <==> a == b,
{
    if latin1(a) == latin1(b) {
        assert(a.len() == latin1(a).len());
        assert(b.len() == latin1(b).len());
        assert forall|i: int| 0 <= i < a.len() implies a[i] == b[i] by {
            assert(latin1(a)[i] == a[i] as char);
            assert(latin1(b)[i] == b[i] as char);
            assert(a[i] == (a[i] as char) as u8);
            assert(b[i] == (b[i] as char) as u8);
        }
        assert(a =~= b);
    }
    if a == b {
        assert(latin1(a) =~= latin1(b));
    }
}


/// A token the lexical pass can have emitted: its number payload, if any, is
/// well formed.
pub open spec fn wf_token(t: SpecToken) -> bool {
    match t {
        SpecToken::Number(n) => wf_number(n),
        _ => true,
    }
}

/// Every token of a run is one the lexical pass can have emitted.
pub open spec fn wf_tokens(ts: Seq<SpecToken>) -> bool {
    forall|i: int| 0 <= i < ts.len() ==> wf_token(#[trigger] ts[i])
}

/// Number scanning records only decimal digits, and never removes any.
pub proof fn lemma_scan_number_digits(s: Seq<char>, st: NumState, n: SpecNumber)
    requires
        forall|i: int| 0 <= i < n.int_digits.len() ==> is_digit(#[trigger] n.int_digits[i]),
        forall|i: int| 0 <= i < n.frac_digits.len() ==> is_digit(#[trigger] n.frac_digits[i]),
        forall|i: int| 0 <= i < n.exp_digits.len() ==> is_digit(#[trigger] n.exp_digits[i]),
    ensures
        scan_number(s, st, n) matches Ok(p) ==> {
            &&& forall|i: int|
                0 <= i < p.0.int_digits.len() ==> is_digit(#[trigger] p.0.int_digits[i])
            &&& forall|i: int|
                0 <= i < p.0.frac_digits.len() ==> is_digit(#[trigger] p.0.frac_digits[i])
            &&& forall|i: int|
                0 <= i < p.0.exp_digits.len() ==> is_digit(#[trigger] p.0.exp_digits[i])
            &&& p.0.int_digits.len() >= n.int_digits.len()
            &&& p.0.neg == n.neg
        },
    decreases s.len(),
{
    if s.len() == 0 {
    } else if is_digit(s[0]) {
        let n2 = push_digit(n, st, s[0]);
        match st {
            NumState::Integer => {
                assert(forall|i: int|
                    0 <= i < n2.int_digits.len() ==> is_digit(#[trigger] n2.int_digits[i]));
            },
            NumState::Fraction => {
                assert(forall|i: int|
                    0 <= i < n2.frac_digits.len() ==> is_digit(#[trigger] n2.frac_digits[i]));
            },
            NumState::Exponent => {
                assert(forall|i: int|
                    0 <= i < n2.exp_digits.len() ==> is_digit(#[trigger] n2.exp_digits[i]));
            },
        }
        lemma_scan_number_digits(s.skip(1), st, n2);
    } else if s[0] == '.' {
        if st is Integer {
            lemma_scan_number_digits(s.skip(1), NumState::Fraction, n);
        }
    } else if s[0] == 'e' || s[0] == 'E' {
        if st is Exponent {
        } else if s.len() >= 2 && (s[1] == '+' || s[1] == '-') {
            lemma_scan_number_digits(s.skip(2), NumState::Exponent, SpecNumber { exp_neg: s[1] == '-', ..n });
        } else {
            lemma_scan_number_digits(s.skip(1), NumState::Exponent, n);
        }
    }
}

/// Every token one lexical step emits is well formed.
pub proof fn lemma_next_token_wf(s: Seq<char>)
    ensures
        next_token(s) matches Ok(p) ==> wf_token(p.0),
{
    let t = skip_ws(s);
    if t.len() > 0 && !is_structural(t[0]) && t[0] != '"' && t[0] != 'n' && t[0] != 't' && t[0]
        != 'f' && (is_digit(t[0]) || t[0] == '-') {
        if t[0] == '-' {
            lemma_scan_number_digits(
                t.skip(1),
                NumState::Integer,
                SpecNumber { neg: true, ..SpecNumber::zero() },
            );
        } else {
            let n1 = push_digit(SpecNumber::zero(), NumState::Integer, t[0]);
            assert(n1.int_digits.len() == 1);
            assert(forall|i: int|
                0 <= i < n1.int_digits.len() ==> is_digit(#[trigger] n1.int_digits[i]));
            lemma_scan_number_digits(t.skip(1), NumState::Integer, n1);
            assert(scan_number(t, NumState::Integer, SpecNumber::zero()) == scan_number(
                t.skip(1),
                NumState::Integer,
                n1,
            ));
        }
    }
}

/// Every token the whole lexical pass emits is well formed.
pub proof fn lemma_tokens_from_wf(s: Seq<char>)
    ensures
        tokens_from(s) matches Ok(ts) ==> wf_tokens(ts),
    decreases s.len(),
{
    lemma_next_token_wf(s);
    match next_token(s) {
        Err(_) => {},
        Ok((t, rest)) => {
            if t is Eof {
                assert(wf_tokens(Seq::<SpecToken>::empty()));
            } else if rest.len() < s.len() {
                lemma_tokens_from_wf(rest);
                match tokens_from(rest) {
                    Ok(ts) => {
                        assert forall|i: int|
                            0 <= i < (seq![t] + ts).len() implies wf_token(
                            #[trigger] (seq![t] + ts)[i],
                        ) by {
                            if i == 0 {
                                assert((seq![t] + ts)[0] == t);
                            } else {
                                assert((seq![t] + ts)[i] == ts[i - 1]);
                            }
                        }
                    },
                    Err(_) => {},
                }
            }
        },
    }
}

} // verus!
