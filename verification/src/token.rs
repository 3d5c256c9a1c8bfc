use vstd::prelude::*;

verus! {

/// A decoded JSON number, kept exactly as its decimal parts: sign, integer
/// digits, fraction digits, exponent sign and exponent digits, each digit as
/// the character that was read.  No floating-point value is computed here;
/// turning the parts into a binary float is a presentation concern that is
/// left to the caller.
#[derive(Debug, PartialEq)]
pub struct JsonNumber {
    pub neg: bool,
    pub int_digits: Vec<char>,
    pub frac_digits: Vec<char>,
    pub exp_neg: bool,
    pub exp_digits: Vec<char>,
}

/// The mathematical counterpart of [`JsonNumber`].
#[verifier::ext_equal]
pub struct SpecNumber {
    pub neg: bool,
    pub int_digits: Seq<char>,
    pub frac_digits: Seq<char>,
    pub exp_neg: bool,
    pub exp_digits: Seq<char>,
}

impl View for JsonNumber {
    type V = SpecNumber;

    open spec fn view(&self) -> SpecNumber {
        SpecNumber {
            neg: self.neg,
            int_digits: self.int_digits@,
            frac_digits: self.frac_digits@,
            exp_neg: self.exp_neg,
            exp_digits: self.exp_digits@,
        }
    }
}

impl SpecNumber {
    /// A fresh number with every part empty and both signs positive.
    pub open spec fn zero() -> SpecNumber {
        SpecNumber {
            neg: false,
            int_digits: Seq::empty(),
            frac_digits: Seq::empty(),
            exp_neg: false,
            exp_digits: Seq::empty(),
        }
    }
}

/// The smallest lexical unit the tokenizers recognize: structural
/// punctuation, a scalar value, or the end-of-input marker.
#[derive(Debug, PartialEq)]
pub enum Token {
    BeginObject,
    EndObject,
    BeginArray,
    EndArray,
    Colon,
    Comma,
    String(String),
    Number(JsonNumber),
    Boolean(bool),
    Null,
    Eof,
}

/// The mathematical counterpart of [`Token`].
#[verifier::ext_equal]
pub enum SpecToken {
    BeginObject,
    EndObject,
    BeginArray,
    EndArray,
    Colon,
    Comma,
    String(Seq<char>),
    Number(SpecNumber),
    Boolean(bool),
    Null,
    Eof,
}

impl View for Token {
    type V = SpecToken;

    open spec fn view(&self) -> SpecToken {
        match self {
            Token::BeginObject => SpecToken::BeginObject,
            Token::EndObject => SpecToken::EndObject,
            Token::BeginArray => SpecToken::BeginArray,
            Token::EndArray => SpecToken::EndArray,
            Token::Colon => SpecToken::Colon,
            Token::Comma => SpecToken::Comma,
            Token::String(s) => SpecToken::String(s@),
            Token::Number(n) => SpecToken::Number(n@),
            Token::Boolean(b) => SpecToken::Boolean(*b),
            Token::Null => SpecToken::Null,
            Token::Eof => SpecToken::Eof,
        }
    }
}

/// The view of a produced token sequence: each token replaced by its
/// mathematical counterpart.
pub open spec fn tokens_view(ts: Seq<Token>) -> Seq<SpecToken> {
    ts.map(|i: int, t: Token| t@)
}

impl JsonNumber {
    /// An independently owned copy with the same parts.
    pub fn duplicate(&self) -> (r: JsonNumber)
        ensures
            r@ == self@,
    {
        JsonNumber {
            neg: self.neg,
            int_digits: dup_chars(&self.int_digits),
            frac_digits: dup_chars(&self.frac_digits),
            exp_neg: self.exp_neg,
            exp_digits: dup_chars(&self.exp_digits),
        }
    }
}

/// An element-for-element copy of a character vector.
pub fn dup_chars(v: &Vec<char>) -> (r: Vec<char>)
    ensures
        r@ == v@,
{
    let mut r: Vec<char> = Vec::new();
    let n = v.len();
    let mut i: usize = 0;
    while i < n
        invariant
            i <= n,
            n == v@.len(),
            r@ =~= v@.take(i as int),
        decreases n - i,
    {
        r.push(v[i]);
        i = i + 1;
    }
    proof {
        assert(r@ =~= v@);
    }
    r
}

/// Relies on `String`'s `FromIterator<char>` implementation: collecting
/// characters yields the string holding exactly those characters in order.
#[verifier::external_body]
pub fn chars_to_string(cs: &Vec<char>) -> (r: String)
    ensures
        r@ == cs@,
{
    cs.iter().collect()
}

} // verus!
