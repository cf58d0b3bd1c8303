//! Building game trees from tokens.

use pgnq::error::{Error, ErrorCode, ParseMode};
use pgnq::nag::Nag;
use pgnq::parser::builder::{build_tree, build_tree_with_options, parse_header, parse_move_number};
use pgnq::parser::lexer::tokenize;

#[test]
fn test_parse_header() {
    let (key, value) = parse_header(r#"[Event "Test Game"]"#).unwrap();
    assert_eq!(key, "Event");
    assert_eq!(value, "Test Game");
}

#[test]
fn test_parse_move_number() {
    assert_eq!(parse_move_number("1."), Some(1));
    assert_eq!(parse_move_number("15..."), Some(15));
    assert_eq!(parse_move_number("42."), Some(42));
}

#[test]
fn test_build_simple_game() {
    let tokens = tokenize("1. e4 e5 2. Nf3 Nc6");
    let tree = build_tree(&tokens).unwrap();

    let e4 = tree.root.find_child("e4").unwrap();
    assert_eq!(e4.move_number, Some(1));
    assert!(!e4.is_black);

    let e5 = e4.find_child("e5").unwrap();
    assert_eq!(e5.move_number, Some(1));
    assert!(e5.is_black);
}

#[test]
fn test_build_with_headers() {
    let tokens = tokenize(r#"[Event "Test"] [White "Alice"] 1. e4"#);
    let tree = build_tree(&tokens).unwrap();

    assert_eq!(tree.header("Event"), Some("Test"));
    assert_eq!(tree.header("White"), Some("Alice"));
}

#[test]
fn test_build_with_comments() {
    let tokens = tokenize("1. e4 {Best move!} e5");
    let tree = build_tree(&tokens).unwrap();

    let e4 = tree.root.find_child("e4").unwrap();
    assert_eq!(e4.comment.trim(), "Best move!");
}

#[test]
fn test_build_with_nags() {
    let tokens = tokenize("1. e4! e5?? 2. Nf3 $14");
    let tree = build_tree(&tokens).unwrap();

    let e4 = tree.root.find_child("e4").unwrap();
    assert!(e4.nags.contains(&Nag::GOOD_MOVE()));

    let e5 = e4.find_child("e5").unwrap();
    assert!(e5.nags.contains(&Nag::BLUNDER()));
}

#[test]
fn test_parse_header_with_escaped_quotes() {
    let (key, value) = parse_header(r#"[Event "Test \"quoted\" Game"]"#).unwrap();
    assert_eq!(key, "Event");
    assert_eq!(value, r#"Test "quoted" Game"#);
}

#[test]
fn test_parse_header_with_escaped_backslash() {
    let (key, value) = parse_header(r#"[Site "C:\\Games\\Chess"]"#).unwrap();
    assert_eq!(key, "Site");
    assert_eq!(value, r#"C:\Games\Chess"#);
}

#[test]
fn builder_test_parse_header_empty_value() {
    let (key, value) = parse_header(r#"[Event ""]"#).unwrap();
    assert_eq!(key, "Event");
    assert_eq!(value, "");
}

#[test]
fn test_parse_header_unicode() {
    let (key, value) = parse_header(r#"[White "Каспаров"]"#).unwrap();
    assert_eq!(key, "White");
    assert_eq!(value, "Каспаров");
}

#[test]
fn test_parse_header_missing_closing_bracket() {
    // Should return None for malformed headers
    assert!(parse_header(r#"[Event "Test""#).is_none());
}

#[test]
fn test_parse_header_missing_key() {
    assert!(parse_header(r#"["value"]"#).is_none());
}

#[test]
fn test_build_root_level_variation() {
    // Root-level variations should create alternative first moves
    let tokens = tokenize("(1. d4 d5) 1. e4 e5 *");
    let tree = build_tree(&tokens).unwrap();

    // Both d4 and e4 should be children of root
    assert_eq!(tree.root.children.len(), 2);

    // First variation: d4
    let d4 = tree.root.find_child("d4");
    assert!(d4.is_some(), "d4 should be a child of root");
    let d4 = d4.unwrap();
    assert!(d4.find_child("d5").is_some(), "d5 should follow d4");

    // Main line: e4
    let e4 = tree.root.find_child("e4");
    assert!(e4.is_some(), "e4 should be a child of root");
    let e4 = e4.unwrap();
    assert!(e4.find_child("e5").is_some(), "e5 should follow e4");
}

#[test]
fn test_build_multiple_root_level_variations() {
    let tokens = tokenize("(1. d4) (1. c4) 1. e4 *");
    let tree = build_tree(&tokens).unwrap();

    // All three should be children of root
    assert_eq!(tree.root.children.len(), 3);
    assert!(tree.root.find_child("d4").is_some());
    assert!(tree.root.find_child("c4").is_some());
    assert!(tree.root.find_child("e4").is_some());
}

#[test]
fn test_extra_closing_parens_handled_gracefully() {
    // Extra closing parens should be silently ignored (liberal input handling)
    let tokens = tokenize("1. e4 e5) 2. Nf3 *");
    let tree = build_tree(&tokens).unwrap();

    // The game should parse normally, ignoring the extra )
    let e4 = tree.root.find_child("e4").unwrap();
    let e5 = e4.find_child("e5").unwrap();
    assert!(e5.find_child("Nf3").is_some());
}

#[test]
fn test_multiple_extra_closing_parens() {
    // Multiple extra closing parens should all be ignored
    let tokens = tokenize("1. e4)) e5))) 2. Nf3 *");
    let tree = build_tree(&tokens).unwrap();

    let e4 = tree.root.find_child("e4").unwrap();
    let e5 = e4.find_child("e5").unwrap();
    assert!(e5.find_child("Nf3").is_some());
}

#[test]
fn test_variation_after_black_move() {
    // After Black's move 1 (e5), a variation with move 2 White (Nf3)
    // is a continuation (alternative at move 2), not a replacement of e5
    // So Nf3 is a CHILD of e5, sibling of Bc4
    let tokens = tokenize("1. e4 e5 (2. Nf3) 2. Bc4 *");
    let tree = build_tree(&tokens).unwrap();

    let e4 = tree.root.find_child("e4").unwrap();
    let e5 = e4.find_child("e5").unwrap();
    // Both Nf3 and Bc4 are children of e5 (alternatives at move 2)
    assert!(e5.find_child("Nf3").is_some(), "Nf3 should be a child of e5");
    assert!(e5.find_child("Bc4").is_some(), "Bc4 should be a child of e5");
}

#[test]
fn test_replacement_variation_same_color() {
    // Variation (1... c5) after e5 replaces e5 (same move number, same color)
    // So c5 is a SIBLING of e5 under e4
    let tokens = tokenize("1. e4 e5 (1... c5 2. Nf3) 2. Nf3 *");
    let tree = build_tree(&tokens).unwrap();

    let e4 = tree.root.find_child("e4").unwrap();
    // Both e5 and c5 are children of e4 (alternatives at move 1 Black)
    assert!(e4.find_child("e5").is_some(), "e5 should be under e4");
    assert!(e4.find_child("c5").is_some(), "c5 should be under e4 (sibling of e5)");
}

#[test]
fn test_response_variation_opposite_color() {
    // After White's Nf3, variation (2... e6) is Black's response
    // So e6 is a CHILD of Nf3
    let tokens = tokenize("1. e4 e5 2. Nf3 (2... e6 3. d4) Nc6 *");
    let tree = build_tree(&tokens).unwrap();

    let nf3 = tree.find_path(&["e4", "e5", "Nf3"]).unwrap();
    // Both e6 and Nc6 are children of Nf3 (alternatives at move 2 Black)
    assert!(nf3.find_child("e6").is_some(), "e6 should be a child of Nf3");
    assert!(nf3.find_child("Nc6").is_some(), "Nc6 should be a child of Nf3");
}

#[test]
fn test_nested_response_variation() {
    // After c5, White plays Nf3, then variation (2... e6) is response to Nf3
    // e6 should be CHILD of Nf3, not sibling
    let tokens = tokenize("1. e4 e5 (1... c5 2. Nf3 (2... e6 3. d4) d6) 2. Nf3 *");
    let tree = build_tree(&tokens).unwrap();

    let c5 = tree.root.find_child("e4").unwrap().find_child("c5").unwrap();
    let nf3_in_c5 = c5.find_child("Nf3").unwrap();
    // e6 and d6 are both children of Nf3 inside the c5 variation
    assert!(nf3_in_c5.find_child("e6").is_some(), "e6 should be child of Nf3 (response)");
    assert!(nf3_in_c5.find_child("d6").is_some(), "d6 should be child of Nf3 (main line in variation)");
}

#[test]
fn test_root_level_replacement_variation() {
    // Variation at move 1 White is an alternative first move
    let tokens = tokenize("1. e4 (1. d4 d5) e5 *");
    let tree = build_tree(&tokens).unwrap();

    // Both e4 and d4 are children of root (alternatives at move 1)
    assert!(tree.root.find_child("e4").is_some(), "e4 should be at root");
    assert!(tree.root.find_child("d4").is_some(), "d4 should be at root (sibling of e4)");
}


#[test]
fn test_unclosed_variation_error() {
    // Unclosed variations should now produce an error
    let tokens = tokenize("1. e4 (1. d4 d5 2. Nf3 *");
    let result = build_tree(&tokens);

    assert!(result.is_err());
    let err = result.unwrap_err();
    // Check it's a parse error
    if let Error::Parse(parse_err) = err {
        assert_eq!(parse_err.code, ErrorCode::UnclosedVariation);
    } else {
        panic!("Expected ParseError");
    }
}

#[test]
fn test_error_has_source_context() {
    let source = "1. e4 (1... c5\n2. Nf3 *";
    let tokens = tokenize(source);
    let result = build_tree_with_options(&tokens, ParseMode::Lenient, Some("test.pgn".into()), Some(source));

    assert!(result.is_err());
    let err = result.unwrap_err();
    if let Error::Parse(parse_err) = err {
        assert!(!parse_err.source_context.is_empty());
        assert_eq!(parse_err.file, Some("test.pgn".to_string()));
    } else {
        panic!("Expected ParseError");
    }
}

