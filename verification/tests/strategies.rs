use json_parser::byte_tokenizer::ByteTokenizer;
use json_parser::char_tokenizer::CharTokenizer;
use json_parser::error::ReadError;
use json_parser::multi_tokenizer::MultiTokenizer;
use json_parser::parse::{
    parse_multi_thread, parse_str, parse_str_multi_char, parse_str_owner_char,
    parse_str_stream_char,
};
use json_parser::token::Token;
use json_parser::token_owner::TokenOwner;

// Escape policy note: every tokenizer strategy applies the same strict
// policy — the supported escapes are \/ \\ \" \t \n \r, and any other
// escape sequence is rejected as an illegal escape, in byte mode as in
// codepoint mode.

const DOC: &str =
    "{\"name\":\"alpha\",\"tags\":[\"x\",\"y\\tz\"],\"count\":-1.5e3,\"ok\":true,\"gone\":null,\"nest\":{\"a\":[1,2,3]}}";

#[test]
fn all_strategies_produce_equal_trees() {
    let by_char = parse_str(DOC).unwrap();
    let by_char_stream = parse_str_stream_char(DOC).unwrap();
    let by_char_owner = parse_str_owner_char(DOC).unwrap();
    let by_bytes = ByteTokenizer::new(DOC.as_bytes()).parse_once().unwrap();
    let by_shards = parse_str_multi_char(DOC).unwrap();
    let by_threads = parse_multi_thread(DOC).unwrap();
    assert_eq!(by_char, by_char_stream);
    assert_eq!(by_char, by_char_owner);
    assert_eq!(by_char, by_bytes);
    assert_eq!(by_char, by_shards);
    assert_eq!(by_char, by_threads);
}

#[test]
fn decoding_twice_yields_equal_independent_trees() {
    let first = parse_str(DOC).unwrap();
    let second = parse_str(DOC).unwrap();
    assert_eq!(first, second);
}

#[test]
fn reserialization_round_trips() {
    let tree = parse_str(DOC).unwrap();
    let text = tree.to_text();
    let again = parse_str(&text).unwrap();
    assert_eq!(tree, again);
}

#[test]
fn reserialization_round_trips_for_scalars_and_escapes() {
    for doc in [
        "null",
        "true",
        "false",
        "42",
        "-0.125",
        "1e-3",
        "\"\"",
        "\"plain\"",
        "\"q\\\"w\\\\e\\tr\\nt\\ry\"",
        "[]",
        "{}",
        "[[1],[2,[3]]]",
    ] {
        let tree = parse_str(doc).unwrap();
        let text = tree.to_text();
        let again = parse_str(&text).unwrap();
        assert_eq!(tree, again);
    }
}

#[test]
fn byte_tokenizer_reports_bytes() {
    assert_eq!(
        ByteTokenizer::new(b"@".as_slice()).parse_once().unwrap_err(),
        ReadError::IllegalByte(64)
    );
}

#[test]
fn shard_boundary_never_lands_inside_a_long_string() {
    // the string literal is far longer than one shard's target width, so a
    // safe boundary must be found outside it (or a partition error raised);
    // a boundary inside the literal would break the token stream apart
    let doc = "{\"k\":\"xxxxxxxxxxxxxxxxxxxxxxxxxxxxxxxxxxxxxxxxxxxxxxxxxxxxxxxxxxxx\"}";
    let single = parse_str(doc).unwrap();
    match parse_str_multi_char(doc) {
        Ok(sharded) => assert_eq!(single, sharded),
        Err(e) => assert_eq!(e, ReadError::Partition),
    }
}

#[test]
fn unsplittable_input_is_a_partition_error() {
    // one long string literal and nothing else: no whitespace or structural
    // character stands outside it, so no safe boundary exists
    let doc = "\"aaaaaaaaaaaaaaaaaaaaaaaaaaaaaaaaaaaaaaaa\"";
    assert_eq!(parse_str_multi_char(doc).unwrap_err(), ReadError::Partition);
}

#[test]
fn sharded_strategy_handles_escaped_quotes() {
    let doc = "[\"a\\\"b\", \"c\\\\\", \"d\", \"e\", \"f\", \"g\", \"h\", \"i\"]";
    let single = parse_str(doc).unwrap();
    match parse_str_multi_char(doc) {
        Ok(sharded) => assert_eq!(single, sharded),
        Err(e) => assert_eq!(e, ReadError::Partition),
    }
}

#[test]
fn tokenizer_reads_tokens_in_order() {
    let mut t = CharTokenizer::new("{\"a\": true}");
    let tokens = t.read_tokens().unwrap();
    assert_eq!(tokens.len(), 5);
    assert_eq!(tokens[0], Token::BeginObject);
    assert_eq!(tokens[1], Token::String(String::from("a")));
    assert_eq!(tokens[2], Token::Colon);
    assert_eq!(tokens[3], Token::Boolean(true));
    assert_eq!(tokens[4], Token::EndObject);
}

#[test]
fn read_token_yields_end_of_input_marker() {
    let mut t = CharTokenizer::new("  ");
    assert_eq!(t.read_token().unwrap(), Token::Eof);
}

#[test]
fn read_boolean_matches_literals_exactly() {
    let mut t = CharTokenizer::new("true");
    assert_eq!(t.read_boolean().unwrap(), Token::Boolean(true));
    let mut f = CharTokenizer::new("false");
    assert_eq!(f.read_boolean().unwrap(), Token::Boolean(false));
    let mut bad = CharTokenizer::new("troe");
    assert_eq!(bad.read_boolean().unwrap_err(), ReadError::IllegalToken);
}

#[test]
fn multi_tokenizer_merges_shards_in_order() {
    let doc = "[1, 2, 3, 4, 5, 6, 7, 8]";
    let merged = MultiTokenizer::new(doc).read_tokens().unwrap();
    let mut single = CharTokenizer::new(doc);
    assert_eq!(merged, single.read_tokens().unwrap());
}

#[test]
fn token_owner_yields_each_token_once() {
    let mut t = CharTokenizer::new("[null]");
    let tokens = t.read_tokens().unwrap();
    let mut owner = TokenOwner::new(tokens);
    assert!(owner.has_next());
    assert_eq!(owner.next().unwrap(), Token::BeginArray);
    assert_eq!(owner.next().unwrap(), Token::Null);
    assert_eq!(owner.next().unwrap(), Token::EndArray);
    assert!(!owner.has_next());
    assert_eq!(owner.next().unwrap_err(), ReadError::Eof);
}

#[test]
fn tokenizer_parse_and_parse_once_agree() {
    let mut t = CharTokenizer::new(DOC);
    let borrowed = t.parse().unwrap();
    let owned = CharTokenizer::new(DOC).parse_once().unwrap();
    assert_eq!(borrowed, owned);
    assert_eq!(borrowed, parse_str(DOC).unwrap());
}
