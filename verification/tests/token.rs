//! The tokens of PGN text.

use pgnq::parser::lexer::lex;
use pgnq::parser::token::Token;

#[test]
fn test_header_tokens() {
    let tokens = lex(r#"[Event "Test Game"]"#);
    assert_eq!(tokens.len(), 1);
    assert!(matches!(&tokens[0], Token::Header(s) if s.contains("Event")));
}

#[test]
fn test_move_tokens() {
    let tokens = lex("e4 Nf3 Bxe5 O-O O-O-O e8=Q+");
    let moves: Vec<_> = tokens.iter().filter(|t| t.is_move()).collect();
    assert_eq!(moves.len(), 6);
}

#[test]
fn test_comment_tokens() {
    let tokens = lex("e4 {This is a comment} e5");
    assert!(tokens
        .iter()
        .any(|t| matches!(t, Token::BraceComment(s) if s == "This is a comment")));
}

#[test]
fn test_nag_tokens() {
    let tokens = lex("e4! Nf3?? $14");
    let nags: Vec<_> = tokens.iter().filter(|t| t.is_nag()).collect();
    assert_eq!(nags.len(), 3);
}

#[test]
fn test_variation_tokens() {
    let tokens = lex("e4 (d4 d5) e5");
    assert!(tokens.iter().any(|t| matches!(t, Token::VariationStart)));
    assert!(tokens.iter().any(|t| matches!(t, Token::VariationEnd)));
}

