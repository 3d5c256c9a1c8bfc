use vstd::prelude::*;

use crate::error::ReadError;
use crate::lex;
use crate::lex::NumState;
use crate::reader::{ByteReader, JsonHandler, Reader};
use crate::token::{chars_to_string, tokens_view, JsonNumber, SpecNumber, SpecToken, Token};

verus! {

pub fn is_ws_byte(b: u8) -> (r: bool)
    ensures
        r == lex::is_ws(b as char),
{
    b == (' ' as u8) || b == ('\t' as u8) || b == ('\n' as u8) || b == ('\r' as u8) || b == 0x0C
}

pub fn is_digit_byte(b: u8) -> (r: bool)
    ensures
        r == lex::is_digit(b as char),
{
    ('0' as u8) <= b && b <= ('9' as u8)
}

pub fn unescape_byte(b: u8) -> (o: Option<char>)
    ensures
        o == lex::unescape(b as char),
{
    if b == ('/' as u8) {
        Some('/')
    } else if b == ('\\' as u8) {
        Some('\\')
    } else if b == ('"' as u8) {
        Some('"')
    } else if b == ('t' as u8) {
        Some('\t')
    } else if b == ('n' as u8) {
        Some('\n')
    } else if b == ('r' as u8) {
        Some('\r')
    } else {
        None
    }
}

/// The byte-oriented tokenizer, the ASCII fast path: it applies the same
/// lexical rules as the codepoint tokenizer, but to the raw bytes of the
/// input, each byte read as the character with the same code.  Bytes above
/// 127 are therefore only faithful to UTF-8 input when they do not occur,
/// or occur only where the decoded text is not compared against the
/// codepoint reading; the codepoint tokenizer is the safe choice otherwise.
pub struct ByteTokenizer<'a> {
    reader: ByteReader<'a>,
}

impl<'a> JsonHandler<&'a [u8]> for ByteTokenizer<'a> {
    fn new(buffer: &'a [u8]) -> Self {
        ByteTokenizer::new(buffer)
    }
}

impl<'a> ByteTokenizer<'a> {
    /// The bytes that are not yet consumed.
    pub closed spec fn remaining(&self) -> Seq<u8> {
        self.reader.remaining()
    }

    /// The characters those bytes stand for.
    pub open spec fn chars(&self) -> Seq<char> {
        lex::latin1(self.remaining())
    }

    pub closed spec fn wf(&self) -> bool {
        self.reader.wf()
    }

    pub fn new(buffer: &'a [u8]) -> (r: Self)
        ensures
            r.wf(),
            r.remaining() == buffer@,
    {
        ByteTokenizer { reader: ByteReader::new(buffer) }
    }

    /// Skip whitespace, then read one token; end of input yields the
    /// end-of-input token.
    pub fn read_token(&mut self) -> (r: Result<Token, ReadError>)
        requires
            old(self).wf(),
        ensures
            final(self).wf(),
            match lex::next_token(old(self).chars()) {
                Ok(p) => r matches Ok(tok) && tok@ == p.0 && final(self).chars() == p.1,
                Err(e) => r matches Err(e2) && e2 == lex::to_byte_err(e),
            },
    {
        let ghost rem0 = self.remaining();
        loop
            invariant_except_break
                self.wf(),
                rem0 == old(self).remaining(),
                lex::skip_ws(lex::latin1(rem0)) == lex::skip_ws(self.chars()),
            ensures
                self.wf(),
                self.chars() == lex::skip_ws(lex::latin1(rem0)),
            decreases self.remaining().len(),
        {
            let ghost rem_pre = self.remaining();
            match self.reader.peek() {
                Ok(b) => {
                    if is_ws_byte(b) {
                        let _ = self.reader.next();
                        proof {
                            lex::lemma_latin1_skip(rem_pre, 1);
                        }
                    } else {
                        break;
                    }
                },
                Err(_) => {
                    break;
                },
            }
        }
        let ghost t = lex::skip_ws(lex::latin1(rem0));
        let b = match self.reader.peek() {
            Ok(b) => b,
            Err(_) => {
                return Ok(Token::Eof);
            },
        };
        proof {
            lex::lemma_latin1_skip(self.remaining(), 1);
        }
        if b == ('{' as u8) {
            let _ = self.reader.next();
            Ok(Token::BeginObject)
        } else if b == ('}' as u8) {
            let _ = self.reader.next();
            Ok(Token::EndObject)
        } else if b == ('[' as u8) {
            let _ = self.reader.next();
            Ok(Token::BeginArray)
        } else if b == (']' as u8) {
            let _ = self.reader.next();
            Ok(Token::EndArray)
        } else if b == (':' as u8) {
            let _ = self.reader.next();
            Ok(Token::Colon)
        } else if b == (',' as u8) {
            let _ = self.reader.next();
            Ok(Token::Comma)
        } else if b == ('"' as u8) {
            let _ = self.reader.next();
            proof {
                lex::lemma_scan_string_err(self.chars(), Seq::empty());
            }
            self.read_string()
        } else if b == ('n' as u8) {
            self.read_null()
        } else if b == ('t' as u8) || b == ('f' as u8) {
            self.read_boolean()
        } else if is_digit_byte(b) || b == ('-' as u8) {
            proof {
                lex::lemma_scan_number_start_err(self.chars());
            }
            self.read_number()
        } else {
            Err(ReadError::IllegalByte(b))
        }
    }

    /// String scanning, entered just after the opening quote.
    fn read_string(&mut self) -> (r: Result<Token, ReadError>)
        requires
            old(self).wf(),
        ensures
            final(self).wf(),
            match lex::scan_string(old(self).chars(), Seq::empty()) {
                Ok(p) => r matches Ok(tok) && tok@ == SpecToken::String(p.0) && final(self).chars() == p.1,
                Err(e) => r matches Err(e2) && e2 == e,
            },
    {
        let ghost rem0 = self.remaining();
        let mut buf: Vec<char> = Vec::new();
        loop
            invariant
                self.wf(),
                rem0 == old(self).remaining(),
                lex::scan_string(lex::latin1(rem0), Seq::empty()) == lex::scan_string(
                    self.chars(),
                    buf@,
                ),
            decreases self.remaining().len(),
        {
            let ghost rem_pre = self.remaining();
            proof {
                if rem_pre.len() >= 1 {
                    lex::lemma_latin1_skip(rem_pre, 1);
                }
            }
            match self.reader.next() {
                Err(e) => {
                    return Err(e);
                },
                Ok(b) => {
                    if b == ('"' as u8) {
                        return Ok(Token::String(chars_to_string(&buf)));
                    } else if b == ('\\' as u8) {
                        match self.reader.next() {
                            Err(e) => {
                                return Err(e);
                            },
                            Ok(e2) => {
                                match unescape_byte(e2) {
                                    Some(u) => {
                                        buf.push(u);
                                        proof {
                                            lex::lemma_latin1_skip(rem_pre.skip(1), 1);
                                            assert(rem_pre.skip(1).skip(1) =~= rem_pre.skip(2));
                                            lex::lemma_latin1_skip(rem_pre, 2);
                                        }
                                    },
                                    None => {
                                        return Err(ReadError::IllegalEscape);
                                    },
                                }
                            },
                        }
                    } else {
                        buf.push(b as char);
                    }
                },
            }
        }
    }

    /// Number scanning from its first character.
    fn read_number(&mut self) -> (r: Result<Token, ReadError>)
        requires
            old(self).wf(),
        ensures
            final(self).wf(),
            match lex::scan_number_start(old(self).chars()) {
                Ok(p) => r matches Ok(tok) && tok@ == SpecToken::Number(p.0) && final(self).chars() == p.1,
                Err(e) => r matches Err(e2) && e2 == e,
            },
    {
        let ghost rem0 = self.remaining();
        let mut num = JsonNumber {
            neg: false,
            int_digits: Vec::new(),
            frac_digits: Vec::new(),
            exp_neg: false,
            exp_digits: Vec::new(),
        };
        let mut st = NumState::Integer;
        if let Ok(b) = self.reader.peek() {
            if b == ('-' as u8) {
                num.neg = true;
                let _ = self.reader.next();
                proof {
                    lex::lemma_latin1_skip(rem0, 1);
                }
            }
        }
        proof {
            assert(num@ =~= SpecNumber { neg: num.neg, ..SpecNumber::zero() });
            assert(lex::scan_number_start(lex::latin1(rem0)) == lex::scan_number(
                self.chars(),
                NumState::Integer,
                num@,
            ));
        }
        loop
            invariant_except_break
                self.wf(),
                rem0 == old(self).remaining(),
                lex::scan_number_start(lex::latin1(rem0)) == lex::scan_number(
                    self.chars(),
                    st,
                    num@,
                ),
            ensures
                self.wf(),
                lex::scan_number_start(lex::latin1(rem0)) == Ok::<
                    (SpecNumber, Seq<char>),
                    ReadError,
                >((num@, self.chars())),
            decreases self.remaining().len(),
        {
            let ghost rem_pre = self.remaining();
            proof {
                if rem_pre.len() >= 1 {
                    lex::lemma_latin1_skip(rem_pre, 1);
                }
            }
            let b = match self.reader.peek() {
                Ok(b) => b,
                Err(_) => {
                    break;
                },
            };
            if is_digit_byte(b) {
                match st {
                    NumState::Integer => num.int_digits.push(b as char),
                    NumState::Fraction => num.frac_digits.push(b as char),
                    NumState::Exponent => num.exp_digits.push(b as char),
                }
                let _ = self.reader.next();
            } else if b == ('.' as u8) {
                if let NumState::Integer = st {
                    st = NumState::Fraction;
                    let _ = self.reader.next();
                } else {
                    return Err(ReadError::IllegalToken);
                }
            } else if b == ('e' as u8) || b == ('E' as u8) {
                if let NumState::Exponent = st {
                    return Err(ReadError::IllegalToken);
                }
                st = NumState::Exponent;
                let _ = self.reader.next();
                if let Ok(b2) = self.reader.peek() {
                    if b2 == ('+' as u8) || b2 == ('-' as u8) {
                        num.exp_neg = b2 == ('-' as u8);
                        let _ = self.reader.next();
                        proof {
                            lex::lemma_latin1_skip(rem_pre.skip(1), 1);
                            assert(rem_pre.skip(1).skip(1) =~= rem_pre.skip(2));
                            lex::lemma_latin1_skip(rem_pre, 2);
                        }
                    }
                }
            } else {
                break;
            }
        }
        Ok(Token::Number(num))
    }

    /// Fixed-literal matching for `null`.
    fn read_null(&mut self) -> (r: Result<Token, ReadError>)
        requires
            old(self).wf(),
        ensures
            final(self).wf(),
            match lex::scan_exact(old(self).chars(), lex::null_lit()) {
                Ok(rest) => r matches Ok(tok) && tok@ == SpecToken::Null && final(self).chars()
                    == rest,
                Err(e) => r matches Err(e2) && e2 == e,
            },
    {
        let lit = [('n' as u8), ('u' as u8), ('l' as u8), ('l' as u8)];
        proof {
            assert(lex::latin1(lit@) =~= lex::null_lit());
        }
        if self.full_match(&lit) {
            Ok(Token::Null)
        } else {
            Err(ReadError::IllegalToken)
        }
    }

    /// Fixed-literal matching for `true` and `false`, dispatched on the
    /// first byte.
    pub fn read_boolean(&mut self) -> (r: Result<Token, ReadError>)
        requires
            old(self).wf(),
        ensures
            final(self).wf(),
            old(self).remaining().len() == 0 ==> (r matches Err(e) && e == ReadError::Eof),
            old(self).remaining().len() > 0 && old(self).remaining()[0] == ('t' as u8) ==> match lex::scan_exact(
                old(self).chars(),
                lex::true_lit(),
            ) {
                Ok(rest) => r matches Ok(tok) && tok@ == SpecToken::Boolean(true) && final(self).chars() == rest,
                Err(e) => r matches Err(e2) && e2 == e,
            },
            old(self).remaining().len() > 0 && old(self).remaining()[0] != ('t' as u8) ==> match lex::scan_exact(
                old(self).chars(),
                lex::false_lit(),
            ) {
                Ok(rest) => r matches Ok(tok) && tok@ == SpecToken::Boolean(false) && final(self).chars() == rest,
                Err(e) => r matches Err(e2) && e2 == e,
            },
    {
        let f = match self.reader.peek() {
            Ok(b) => b,
            Err(e) => {
                return Err(e);
            },
        };
        if f == ('t' as u8) {
            let lit = [('t' as u8), ('r' as u8), ('u' as u8), ('e' as u8)];
            proof {
                assert(lex::latin1(lit@) =~= lex::true_lit());
            }
            if self.full_match(&lit) {
                return Ok(Token::Boolean(true));
            }
        } else {
            let lit = [('f' as u8), ('a' as u8), ('l' as u8), ('s' as u8), ('e' as u8)];
            proof {
                assert(lex::latin1(lit@) =~= lex::false_lit());
            }
            if self.full_match(&lit) {
                return Ok(Token::Boolean(false));
            }
        }
        Err(ReadError::IllegalToken)
    }

    /// Consume bytes while they match the literal exactly; report whether
    /// the whole literal was matched.  Success and failure are stated
    /// through the characters the bytes stand for, as `scan_exact` sees
    /// them.
    fn full_match(&mut self, lit: &[u8]) -> (b: bool)
        requires
            old(self).wf(),
        ensures
            final(self).wf(),
            b == (old(self).chars().len() >= lit@.len() && old(self).chars().take(lit@.len() as int)
                == lex::latin1(lit@)),
            b ==> final(self).chars() == old(self).chars().skip(lit@.len() as int),
    {
        let ghost rem0 = self.remaining();
        let mut i: usize = 0;
        while i < lit.len()
            invariant
                self.wf(),
                rem0 == old(self).remaining(),
                i <= lit@.len(),
                rem0.len() >= i,
                self.remaining() == rem0.skip(i as int),
                rem0.take(i as int) == lit@.take(i as int),
            decreases lit@.len() - i,
        {
            match self.reader.next() {
                Ok(v) => {
                    if v != lit[i] {
                        proof {
                            assert(rem0[i as int] == v);
                            if rem0.len() >= lit@.len() && lex::latin1(rem0).take(lit@.len() as int)
                                == lex::latin1(lit@) {
                                lex::lemma_latin1_take(rem0, lit@.len() as int);
                                lex::lemma_latin1_inj(rem0.take(lit@.len() as int), lit@);
                                assert(rem0.take(lit@.len() as int)[i as int] == rem0[i as int]);
                            }
                        }
                        return false;
                    }
                    proof {
                        assert(rem0.take(i + 1) =~= rem0.take(i as int).push(rem0[i as int]));
                        assert(lit@.take(i + 1) =~= lit@.take(i as int).push(lit@[i as int]));
                        assert(rem0.skip(i as int).skip(1) =~= rem0.skip(i + 1));
                    }
                },
                Err(_) => {
                    return false;
                },
            }
            i = i + 1;
        }
        proof {
            assert(rem0.take(i as int) =~= lit@);
            lex::lemma_latin1_take(rem0, lit@.len() as int);
            lex::lemma_latin1_skip(rem0, lit@.len() as int);
        }
        true
    }

    /// The whole lexical pass: every token before the end-of-input marker in
    /// order, or the first error; on an error no tokens are handed out.
    pub fn read_tokens(&mut self) -> (r: Result<Vec<Token>, ReadError>)
        requires
            old(self).wf(),
        ensures
            final(self).wf(),
            match lex::tokens_from(old(self).chars()) {
                Ok(ts) => r matches Ok(v) && tokens_view(v@) == ts,
                Err(e) => r matches Err(e2) && e2 == lex::to_byte_err(e),
            },
    {
        let ghost rem0 = self.remaining();
        let mut tokens: Vec<Token> = Vec::new();
        proof {
            assert(tokens_view(tokens@) =~= Seq::<SpecToken>::empty());
        }
        loop
            invariant
                self.wf(),
                rem0 == old(self).remaining(),
                match lex::tokens_from(self.chars()) {
                    Ok(ts) => lex::tokens_from(lex::latin1(rem0)) matches Ok(all) && all
                        == tokens_view(tokens@) + ts,
                    Err(e) => lex::tokens_from(lex::latin1(rem0)) == Err::<
                        Seq<SpecToken>,
                        ReadError,
                    >(e),
                },
            decreases self.remaining().len(),
        {
            let ghost rem_pre = self.chars();
            proof {
                lex::lemma_next_token_progress(rem_pre);
            }
            let t = match self.read_token() {
                Ok(t) => t,
                Err(e) => {
                    return Err(e);
                },
            };
            if let Token::Eof = t {
                proof {
                    assert(tokens_view(tokens@) + Seq::<SpecToken>::empty() =~= tokens_view(
                        tokens@,
                    ));
                }
                return Ok(tokens);
            }
            let ghost tokens_pre = tokens@;
            tokens.push(t);
            proof {
                assert(tokens_view(tokens@) =~= tokens_view(tokens_pre) + seq![t@]);
                match lex::tokens_from(self.chars()) {
                    Ok(ts) => {
                        assert(tokens_view(tokens_pre) + (seq![t@] + ts) =~= tokens_view(tokens@)
                            + ts);
                    },
                    Err(_) => {},
                }
            }
        }
    }
}

} // verus!
