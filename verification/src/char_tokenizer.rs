use vstd::prelude::*;

use crate::error::ReadError;
use crate::lex;
use crate::lex::NumState;
use crate::reader::{CharReader, JsonHandler, Reader};
use crate::token::{chars_to_string, tokens_view, JsonNumber, SpecNumber, SpecToken, Token};

verus! {

pub fn is_ws_char(c: char) -> (b: bool)
    ensures
        b == lex::is_ws(c),
{
    c == ' ' || c == '\t' || c == '\n' || c == '\r' || c == '\u{000C}'
}

pub fn is_digit_char(c: char) -> (b: bool)
    ensures
        b == lex::is_digit(c),
{
    '0' <= c && c <= '9'
}

pub fn unescape_char(c: char) -> (o: Option<char>)
    ensures
        o == lex::unescape(c),
{
    if c == '/' {
        Some('/')
    } else if c == '\\' {
        Some('\\')
    } else if c == '"' {
        Some('"')
    } else if c == 't' {
        Some('\t')
    } else if c == 'n' {
        Some('\n')
    } else if c == 'r' {
        Some('\r')
    } else {
        None
    }
}

/// The codepoint-oriented tokenizer: applies the lexical rules of
/// [`crate::lex`] to the characters of the input, one token per call.
pub struct CharTokenizer {
    reader: CharReader,
}

impl JsonHandler<&str> for CharTokenizer {
    fn new(buffer: &str) -> Self {
        CharTokenizer::new(buffer)
    }
}

impl CharTokenizer {
    /// The characters that are not yet consumed.
    pub closed spec fn remaining(&self) -> Seq<char> {
        self.reader.remaining()
    }

    pub closed spec fn wf(&self) -> bool {
        self.reader.wf()
    }

    pub fn new(buffer: &str) -> (r: Self)
        ensures
            r.wf(),
            r.remaining() == buffer@,
    {
        CharTokenizer { reader: CharReader::new(buffer) }
    }

    /// A tokenizer over an already decoded character sequence.
    pub fn from_chars(chars: &[char]) -> (r: Self)
        ensures
            r.wf(),
            r.remaining() == chars@,
    {
        CharTokenizer { reader: CharReader::from_chars(chars) }
    }

    /// Skip whitespace, then read one token; end of input yields the
    /// end-of-input token.
    pub fn read_token(&mut self) -> (r: Result<Token, ReadError>)
        requires
            old(self).wf(),
        ensures
            final(self).wf(),
            match lex::next_token(old(self).remaining()) {
                Ok(p) => r matches Ok(tok) && tok@ == p.0 && final(self).remaining() == p.1,
                Err(e) => r matches Err(e2) && e2 == e,
            },
    {
        let ghost rem0 = self.remaining();
        loop
            invariant_except_break
                self.wf(),
                rem0 == old(self).remaining(),
                lex::skip_ws(rem0) == lex::skip_ws(self.remaining()),
            ensures
                self.wf(),
                self.remaining() == lex::skip_ws(rem0),
            decreases self.remaining().len(),
        {
            match self.reader.peek() {
                Ok(c) => {
                    if is_ws_char(c) {
                        let _ = self.reader.next();
                    } else {
                        break;
                    }
                },
                Err(_) => {
                    break;
                },
            }
        }
        let c = match self.reader.peek() {
            Ok(c) => c,
            Err(_) => {
                return Ok(Token::Eof);
            },
        };
        if c == '{' {
            let _ = self.reader.next();
            Ok(Token::BeginObject)
        } else if c == '}' {
            let _ = self.reader.next();
            Ok(Token::EndObject)
        } else if c == '[' {
            let _ = self.reader.next();
            Ok(Token::BeginArray)
        } else if c == ']' {
            let _ = self.reader.next();
            Ok(Token::EndArray)
        } else if c == ':' {
            let _ = self.reader.next();
            Ok(Token::Colon)
        } else if c == ',' {
            let _ = self.reader.next();
            Ok(Token::Comma)
        } else if c == '"' {
            let _ = self.reader.next();
            self.read_string()
        } else if c == 'n' {
            self.read_null()
        } else if c == 't' || c == 'f' {
            self.read_boolean()
        } else if is_digit_char(c) || c == '-' {
            self.read_number()
        } else {
            Err(ReadError::IllegalChar(c))
        }
    }

    /// String scanning, entered just after the opening quote.
    fn read_string(&mut self) -> (r: Result<Token, ReadError>)
        requires
            old(self).wf(),
        ensures
            final(self).wf(),
            match lex::scan_string(old(self).remaining(), Seq::empty()) {
                Ok(p) => r matches Ok(tok) && tok@ == SpecToken::String(p.0) && final(self).remaining() == p.1,
                Err(e) => r matches Err(e2) && e2 == e,
            },
    {
        let ghost rem0 = self.remaining();
        let mut buf: Vec<char> = Vec::new();
        loop
            invariant
                self.wf(),
                rem0 == old(self).remaining(),
                lex::scan_string(rem0, Seq::empty()) == lex::scan_string(self.remaining(), buf@),
            decreases self.remaining().len(),
        {
            let ghost rem_pre = self.remaining();
            match self.reader.next() {
                Err(e) => {
                    return Err(e);
                },
                Ok(c) => {
                    if c == '"' {
                        return Ok(Token::String(chars_to_string(&buf)));
                    } else if c == '\\' {
                        match self.reader.next() {
                            Err(e) => {
                                return Err(e);
                            },
                            Ok(e2) => {
                                match unescape_char(e2) {
                                    Some(u) => {
                                        buf.push(u);
                                        proof {
                                            assert(rem_pre.skip(1).skip(1) =~= rem_pre.skip(2));
                                        }
                                    },
                                    None => {
                                        return Err(ReadError::IllegalEscape);
                                    },
                                }
                            },
                        }
                    } else {
                        buf.push(c);
                    }
                },
            }
        }
    }

    /// Number scanning from its first character.
    fn read_number(&mut self) -> (r: Result<Token, ReadError>)
        requires
            old(self).wf(),
        ensures
            final(self).wf(),
            match lex::scan_number_start(old(self).remaining()) {
                Ok(p) => r matches Ok(tok) && tok@ == SpecToken::Number(p.0) && final(self).remaining() == p.1,
                Err(e) => r matches Err(e2) && e2 == e,
            },
    {
        let ghost rem0 = self.remaining();
        let mut num = JsonNumber {
            neg: false,
            int_digits: Vec::new(),
            frac_digits: Vec::new(),
            exp_neg: false,
            exp_digits: Vec::new(),
        };
        let mut st = NumState::Integer;
        if let Ok(c) = self.reader.peek() {
            if c == '-' {
                num.neg = true;
                let _ = self.reader.next();
            }
        }
        proof {
            assert(num@ =~= SpecNumber { neg: num.neg, ..SpecNumber::zero() });
            assert(lex::scan_number_start(rem0) == lex::scan_number(
                self.remaining(),
                NumState::Integer,
                num@,
            ));
        }
        loop
            invariant_except_break
                self.wf(),
                rem0 == old(self).remaining(),
                lex::scan_number_start(rem0) == lex::scan_number(self.remaining(), st, num@),
            ensures
                self.wf(),
                lex::scan_number_start(rem0) == Ok::<(SpecNumber, Seq<char>), ReadError>(
                    (num@, self.remaining()),
                ),
            decreases self.remaining().len(),
        {
            let ghost rem_pre = self.remaining();
            let c = match self.reader.peek() {
                Ok(c) => c,
                Err(_) => {
                    break;
                },
            };
            if is_digit_char(c) {
                match st {
                    NumState::Integer => num.int_digits.push(c),
                    NumState::Fraction => num.frac_digits.push(c),
                    NumState::Exponent => num.exp_digits.push(c),
                }
                let _ = self.reader.next();
            } else if c == '.' {
                if let NumState::Integer = st {
                    st = NumState::Fraction;
                    let _ = self.reader.next();
                } else {
                    return Err(ReadError::IllegalToken);
                }
            } else if c == 'e' || c == 'E' {
                if let NumState::Exponent = st {
                    return Err(ReadError::IllegalToken);
                }
                st = NumState::Exponent;
                let _ = self.reader.next();
                if let Ok(c2) = self.reader.peek() {
                    if c2 == '+' || c2 == '-' {
                        num.exp_neg = c2 == '-';
                        let _ = self.reader.next();
                        proof {
                            assert(rem_pre.skip(1).skip(1) =~= rem_pre.skip(2));
                        }
                    }
                }
            } else {
                break;
            }
        }
        Ok(Token::Number(num))
    }

    /// Fixed-literal matching for `null`.
    fn read_null(&mut self) -> (r: Result<Token, ReadError>)
        requires
            old(self).wf(),
        ensures
            final(self).wf(),
            match lex::scan_exact(old(self).remaining(), lex::null_lit()) {
                Ok(rest) => r matches Ok(tok) && tok@ == SpecToken::Null && final(self).remaining() == rest,
                Err(e) => r matches Err(e2) && e2 == e,
            },
    {
        let lit = ['n', 'u', 'l', 'l'];
        proof {
            assert(lit@ =~= lex::null_lit());
        }
        if self.full_match(&lit) {
            Ok(Token::Null)
        } else {
            Err(ReadError::IllegalToken)
        }
    }

    /// Fixed-literal matching for `true` and `false`, dispatched on the
    /// first character.
    pub fn read_boolean(&mut self) -> (r: Result<Token, ReadError>)
        requires
            old(self).wf(),
        ensures
            final(self).wf(),
            old(self).remaining().len() == 0 ==> (r matches Err(e) && e == ReadError::Eof),
            old(self).remaining().len() > 0 && old(self).remaining()[0] == 't' ==> match lex::scan_exact(
                old(self).remaining(),
                lex::true_lit(),
            ) {
                Ok(rest) => r matches Ok(tok) && tok@ == SpecToken::Boolean(true) && final(self).remaining() == rest,
                Err(e) => r matches Err(e2) && e2 == e,
            },
            old(self).remaining().len() > 0 && old(self).remaining()[0] != 't' ==> match lex::scan_exact(
                old(self).remaining(),
                lex::false_lit(),
            ) {
                Ok(rest) => r matches Ok(tok) && tok@ == SpecToken::Boolean(false) && final(self).remaining() == rest,
                Err(e) => r matches Err(e2) && e2 == e,
            },
    {
        let f = match self.reader.peek() {
            Ok(c) => c,
            Err(e) => {
                return Err(e);
            },
        };
        if f == 't' {
            let lit = ['t', 'r', 'u', 'e'];
            proof {
                assert(lit@ =~= lex::true_lit());
            }
            if self.full_match(&lit) {
                return Ok(Token::Boolean(true));
            }
        } else {
            let lit = ['f', 'a', 'l', 's', 'e'];
            proof {
                assert(lit@ =~= lex::false_lit());
            }
            if self.full_match(&lit) {
                return Ok(Token::Boolean(false));
            }
        }
        Err(ReadError::IllegalToken)
    }

    /// Consume units while they match the literal exactly; report whether
    /// the whole literal was matched.
    fn full_match(&mut self, lit: &[char]) -> (b: bool)
        requires
            old(self).wf(),
        ensures
            final(self).wf(),
            b == (old(self).remaining().len() >= lit@.len() && old(self).remaining().take(
                lit@.len() as int,
            ) == lit@),
            b ==> final(self).remaining() == old(self).remaining().skip(lit@.len() as int),
    {
        let ghost rem0 = self.remaining();
        let mut i: usize = 0;
        while i < lit.len()
            invariant
                self.wf(),
                rem0 == old(self).remaining(),
                i <= lit@.len(),
                rem0.len() >= i,
                self.remaining() == rem0.skip(i as int),
                rem0.take(i as int) == lit@.take(i as int),
            decreases lit@.len() - i,
        {
            match self.reader.next() {
                Ok(v) => {
                    if v != lit[i] {
                        proof {
                            assert(rem0[i as int] == v);
                            if rem0.len() >= lit@.len() && rem0.take(lit@.len() as int) == lit@ {
                                assert(rem0.take(lit@.len() as int)[i as int] == rem0[i as int]);
                            }
                        }
                        return false;
                    }
                    proof {
                        assert(rem0.take(i + 1) =~= rem0.take(i as int).push(rem0[i as int]));
                        assert(lit@.take(i + 1) =~= lit@.take(i as int).push(lit@[i as int]));
                        assert(rem0.skip(i as int).skip(1) =~= rem0.skip(i + 1));
                    }
                },
                Err(_) => {
                    return false;
                },
            }
            i = i + 1;
        }
        proof {
            assert(rem0.take(i as int) =~= lit@);
        }
        true
    }

    /// The whole lexical pass: every token before the end-of-input marker in
    /// order, or the first error; on an error no tokens are handed out.
    pub fn read_tokens(&mut self) -> (r: Result<Vec<Token>, ReadError>)
        requires
            old(self).wf(),
        ensures
            final(self).wf(),
            match lex::tokens_from(old(self).remaining()) {
                Ok(ts) => r matches Ok(v) && tokens_view(v@) == ts,
                Err(e) => r matches Err(e2) && e2 == e,
            },
    {
        let ghost rem0 = self.remaining();
        let mut tokens: Vec<Token> = Vec::new();
        proof {
            assert(tokens_view(tokens@) =~= Seq::<SpecToken>::empty());
        }
        loop
            invariant
                self.wf(),
                rem0 == old(self).remaining(),
                match lex::tokens_from(self.remaining()) {
                    Ok(ts) => lex::tokens_from(rem0) matches Ok(all) && all == tokens_view(
                        tokens@,
                    ) + ts,
                    Err(e) => lex::tokens_from(rem0) == Err::<Seq<SpecToken>, ReadError>(e),
                },
            decreases self.remaining().len(),
        {
            let ghost rem_pre = self.remaining();
            proof {
                lex::lemma_next_token_progress(rem_pre);
            }
            let t = match self.read_token() {
                Ok(t) => t,
                Err(e) => {
                    return Err(e);
                },
            };
            if let Token::Eof = t {
                proof {
                    assert(tokens_view(tokens@) + Seq::<SpecToken>::empty() =~= tokens_view(
                        tokens@,
                    ));
                }
                return Ok(tokens);
            }
            let ghost tokens_pre = tokens@;
            tokens.push(t);
            proof {
                assert(tokens_view(tokens@) =~= tokens_view(tokens_pre) + seq![t@]);
                match lex::tokens_from(self.remaining()) {
                    Ok(ts) => {
                        assert(tokens_view(tokens_pre) + (seq![t@] + ts) =~= tokens_view(tokens@)
                            + ts);
                    },
                    Err(_) => {},
                }
            }
        }
    }
}

} // verus!
