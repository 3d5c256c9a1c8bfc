use vstd::prelude::*;

verus! {

/// Every way a decode can fail.  The first error met anywhere in
/// tokenization or tree building aborts the whole decode; no partial
/// tree is ever returned.
#[derive(Debug, PartialEq)]
pub enum ReadError {
    /// An unsupported escape sequence inside a string literal.
    IllegalEscape,
    /// A token arrived in a parser state that does not permit it.
    IllegalSyntax,
    /// A recognized token class whose content breaks its own sub-grammar
    /// (bad literal match, malformed number).
    IllegalToken,
    /// A byte that cannot begin any token (byte-oriented lexical pass).
    IllegalByte(u8),
    /// A character that cannot begin any token (codepoint-oriented pass).
    IllegalChar(char),
    /// The shard splitter found no safe boundary for some shard.
    Partition,
    /// Lookahead or consumption attempted past the last unit or token.
    Eof,
}

} // verus!
