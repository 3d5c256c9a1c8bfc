//! A verified JSON decoder.
//!
//! Raw text is turned into an in-memory tree value in two passes: a lexical
//! pass that emits a token sequence (available in a byte-oriented, a
//! codepoint-oriented and a sharded strategy), and a recursive-descent pass
//! that builds the tree from a token stream.  Every decoding function is
//! specified against a mathematical model of the lexical rules and of the
//! JSON grammar, and verified against it.

pub mod error;
pub mod token;
pub mod lex;
pub mod reader;
pub mod char_tokenizer;
pub mod byte_tokenizer;
pub mod value;
pub mod grammar;
pub mod token_owner;
pub mod token_reader;
pub mod multi_tokenizer;
pub mod parse;
pub mod codec;
