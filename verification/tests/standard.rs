//! Standard PGN output.

use pgnq::parser::parse;
use pgnq::serializer::standard::{process_comment, to_standard};
use pgnq::serializer::OutputOptions;

#[test]
fn test_serialize_simple_game() {
    let tree = parse("1. e4 e5 2. Nf3").unwrap();
    let options = OutputOptions {
        headers: false,
        result: false,
        ..Default::default()
    };
    let pgn = to_standard(&tree, &options);
    assert!(pgn.contains("e4"));
    assert!(pgn.contains("e5"));
    assert!(pgn.contains("Nf3"));
}

#[test]
fn test_serialize_with_comments() {
    let tree = parse("1. e4 {Best!} e5").unwrap();
    let options = OutputOptions {
        headers: false,
        result: false,
        ..Default::default()
    };
    let pgn = to_standard(&tree, &options);
    assert!(pgn.contains("{ Best! }"));
}

#[test]
fn test_strip_clocks() {
    let comment = "Good move [%clk 1:30:00] indeed";
    let options = OutputOptions {
        strip_clocks: true,
        ..Default::default()
    };
    let result = process_comment(comment, &options);
    assert!(!result.contains("%clk"));
    assert!(result.contains("Good move"));
    assert!(result.contains("indeed"));
}

