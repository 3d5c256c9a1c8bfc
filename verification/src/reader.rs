use vstd::prelude::*;

use crate::error::ReadError;

verus! {

/// Minimal peekable cursor over a unit sequence: `peek` returns the next
/// unconsumed unit without advancing and is idempotent; `next` returns and
/// consumes it.  Once a unit is consumed it is never revisited.
pub trait Reader {
    type Item: Copy;

    /// The units that are not yet consumed.
    spec fn remaining(&self) -> Seq<Self::Item>;

    /// The cursor position is inside its buffer.
    spec fn wf(&self) -> bool;

    fn peek(&self) -> (r: Result<Self::Item, ReadError>)
        requires
            self.wf(),
        ensures
            self.remaining().len() > 0 ==> r == Result::<Self::Item, ReadError>::Ok(
                self.remaining()[0],
            ),
            self.remaining().len() == 0 ==> r == Result::<Self::Item, ReadError>::Err(
                ReadError::Eof,
            ),
    ;

    fn next(&mut self) -> (r: Result<Self::Item, ReadError>)
        requires
            old(self).wf(),
        ensures
            final(self).wf(),
            old(self).remaining().len() > 0 ==> r == Result::<Self::Item, ReadError>::Ok(
                old(self).remaining()[0],
            ) && final(self).remaining() == old(self).remaining().skip(1),
            old(self).remaining().len() == 0 ==> r == Result::<Self::Item, ReadError>::Err(
                ReadError::Eof,
            ) && final(self).remaining() == old(self).remaining(),
    ;
}

/// Builds a decoding pipeline stage directly from a raw input value.
pub trait JsonHandler<T>: Sized {
    fn new(j: T) -> Self;
}

/// A cursor over a byte slice.
pub struct ByteReader<'a> {
    buffer: &'a [u8],
    pos: usize,
}

impl<'a> ByteReader<'a> {
    pub fn new(buffer: &'a [u8]) -> (r: Self)
        ensures
            r.wf(),
            r.remaining() == buffer@,
    {
        let r = ByteReader { buffer, pos: 0 };
        proof {
            assert(r.remaining() =~= buffer@);
        }
        r
    }
}

impl<'a> Reader for ByteReader<'a> {
    type Item = u8;

    closed spec fn remaining(&self) -> Seq<u8> {
        self.buffer@.skip(self.pos as int)
    }

    closed spec fn wf(&self) -> bool {
        self.pos <= self.buffer@.len()
    }

    fn peek(&self) -> (r: Result<u8, ReadError>) {
        if self.pos < self.buffer.len() {
            Ok(self.buffer[self.pos])
        } else {
            Err(ReadError::Eof)
        }
    }

    fn next(&mut self) -> (r: Result<u8, ReadError>) {
        if self.pos < self.buffer.len() {
            let c = self.buffer[self.pos];
            self.pos = self.pos + 1;
            proof {
                assert(final(self).remaining() =~= old(self).remaining().skip(1));
            }
            Ok(c)
        } else {
            Err(ReadError::Eof)
        }
    }
}

/// A cursor over the characters of a text input, decoded up front.
pub struct CharReader {
    buffer: Vec<char>,
    pos: usize,
}

impl CharReader {
    pub fn new(buffer: &str) -> (r: Self)
        ensures
            r.wf(),
            r.remaining() == buffer@,
    {
        let n = buffer.unicode_len();
        let mut v: Vec<char> = Vec::new();
        let mut i: usize = 0;
        while i < n
            invariant
                i <= n,
                n == buffer@.len(),
                v@ =~= buffer@.take(i as int),
            decreases n - i,
        {
            v.push(buffer.get_char(i));
            i = i + 1;
        }
        proof {
            assert(v@ =~= buffer@);
        }
        let r = CharReader { buffer: v, pos: 0 };
        proof {
            assert(r.remaining() =~= buffer@);
        }
        r
    }

    /// A cursor over an already decoded character sequence.
    pub fn from_chars(chars: &[char]) -> (r: Self)
        ensures
            r.wf(),
            r.remaining() == chars@,
    {
        let n = chars.len();
        let mut v: Vec<char> = Vec::new();
        let mut i: usize = 0;
        while i < n
            invariant
                i <= n,
                n == chars@.len(),
                v@ =~= chars@.take(i as int),
            decreases n - i,
        {
            v.push(chars[i]);
            i = i + 1;
        }
        proof {
            assert(v@ =~= chars@);
        }
        let r = CharReader { buffer: v, pos: 0 };
        proof {
            assert(r.remaining() =~= chars@);
        }
        r
    }
}

impl Reader for CharReader {
    type Item = char;

    closed spec fn remaining(&self) -> Seq<char> {
        self.buffer@.skip(self.pos as int)
    }

    closed spec fn wf(&self) -> bool {
        self.pos <= self.buffer@.len()
    }

    fn peek(&self) -> (r: Result<char, ReadError>) {
        if self.pos < self.buffer.len() {
            Ok(self.buffer[self.pos])
        } else {
            Err(ReadError::Eof)
        }
    }

    fn next(&mut self) -> (r: Result<char, ReadError>) {
        if self.pos < self.buffer.len() {
            let c = self.buffer[self.pos];
            self.pos = self.pos + 1;
            proof {
                assert(final(self).remaining() =~= old(self).remaining().skip(1));
            }
            Ok(c)
        } else {
            Err(ReadError::Eof)
        }
    }
}

} // verus!
