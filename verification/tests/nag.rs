//! Numeric Annotation Glyphs: constants, symbols, `$N` notation, text.

use pgnq::nag::Nag;
use std::collections::HashSet;

#[test]
fn test_nag_constants() {
    assert_eq!(Nag::GOOD_MOVE().0, 1);
    assert_eq!(Nag::POOR_MOVE().0, 2);
    assert_eq!(Nag::BRILLIANT_MOVE().0, 3);
    assert_eq!(Nag::BLUNDER().0, 4);
    assert_eq!(Nag::INTERESTING_MOVE().0, 5);
    assert_eq!(Nag::DUBIOUS_MOVE().0, 6);
    assert_eq!(Nag::EQUAL().0, 10);
    assert_eq!(Nag::WHITE_SLIGHT_ADVANTAGE().0, 14);
    assert_eq!(Nag::BLACK_SLIGHT_ADVANTAGE().0, 15);
    assert_eq!(Nag::WHITE_MODERATE_ADVANTAGE().0, 16);
    assert_eq!(Nag::BLACK_MODERATE_ADVANTAGE().0, 17);
    assert_eq!(Nag::WHITE_DECISIVE_ADVANTAGE().0, 18);
    assert_eq!(Nag::BLACK_DECISIVE_ADVANTAGE().0, 19);
}

#[test]
fn test_nag_symbols() {
    assert_eq!(Nag::GOOD_MOVE().to_symbol(), Some("!"));
    assert_eq!(Nag::BLUNDER().to_symbol(), Some("??"));
    assert_eq!(Nag(100).to_symbol(), None);
}

#[test]
fn test_nag_symbol_move_annotations() {
    assert_eq!(Nag(1).to_symbol(), Some("!"));
    assert_eq!(Nag(2).to_symbol(), Some("?"));
    assert_eq!(Nag(3).to_symbol(), Some("!!"));
    assert_eq!(Nag(4).to_symbol(), Some("??"));
    assert_eq!(Nag(5).to_symbol(), Some("!?"));
    assert_eq!(Nag(6).to_symbol(), Some("?!"));
}

#[test]
fn test_nag_symbol_positional() {
    assert_eq!(Nag(10).to_symbol(), Some("="));
    assert_eq!(Nag(14).to_symbol(), Some("+="));
    assert_eq!(Nag(15).to_symbol(), Some("=+"));
    assert_eq!(Nag(16).to_symbol(), Some("+/-"));
    assert_eq!(Nag(17).to_symbol(), Some("-/+"));
    assert_eq!(Nag(18).to_symbol(), Some("+-"));
    assert_eq!(Nag(19).to_symbol(), Some("-+"));
}

#[test]
fn test_nag_symbol_no_symbol() {
    // NAGs without standard symbols
    assert_eq!(Nag(0).to_symbol(), None);
    assert_eq!(Nag(7).to_symbol(), None);
    assert_eq!(Nag(8).to_symbol(), None);
    assert_eq!(Nag(9).to_symbol(), None);
    assert_eq!(Nag(11).to_symbol(), None);
    assert_eq!(Nag(20).to_symbol(), None);
    assert_eq!(Nag(100).to_symbol(), None);
    assert_eq!(Nag(255).to_symbol(), None);
}

#[test]
fn test_from_symbol() {
    assert_eq!(Nag::from_symbol("!"), Some(Nag::GOOD_MOVE()));
    assert_eq!(Nag::from_symbol("!!"), Some(Nag::BRILLIANT_MOVE()));
    assert_eq!(Nag::from_symbol("+-"), Some(Nag::WHITE_DECISIVE_ADVANTAGE()));
}

#[test]
fn test_from_symbol_move_annotations() {
    assert_eq!(Nag::from_symbol("!"), Some(Nag(1)));
    assert_eq!(Nag::from_symbol("?"), Some(Nag(2)));
    assert_eq!(Nag::from_symbol("!!"), Some(Nag(3)));
    assert_eq!(Nag::from_symbol("??"), Some(Nag(4)));
    assert_eq!(Nag::from_symbol("!?"), Some(Nag(5)));
    assert_eq!(Nag::from_symbol("?!"), Some(Nag(6)));
}

#[test]
fn test_from_symbol_positional() {
    assert_eq!(Nag::from_symbol("="), Some(Nag(10)));
    assert_eq!(Nag::from_symbol("+="), Some(Nag(14)));
    assert_eq!(Nag::from_symbol("=+"), Some(Nag(15)));
    assert_eq!(Nag::from_symbol("+/-"), Some(Nag(16)));
    assert_eq!(Nag::from_symbol("-/+"), Some(Nag(17)));
    assert_eq!(Nag::from_symbol("+-"), Some(Nag(18)));
    assert_eq!(Nag::from_symbol("-+"), Some(Nag(19)));
}

#[test]
fn test_from_symbol_unicode() {
    // Unicode chess symbols
    assert_eq!(Nag::from_symbol("⩲"), Some(Nag(14))); // White slight advantage
    assert_eq!(Nag::from_symbol("⩱"), Some(Nag(15))); // Black slight advantage
    assert_eq!(Nag::from_symbol("±"), Some(Nag(16))); // White moderate advantage
    assert_eq!(Nag::from_symbol("∓"), Some(Nag(17))); // Black moderate advantage
}

#[test]
fn test_from_symbol_invalid() {
    assert_eq!(Nag::from_symbol(""), None);
    assert_eq!(Nag::from_symbol("x"), None);
    assert_eq!(Nag::from_symbol("!!!"), None);
    assert_eq!(Nag::from_symbol("???"), None);
    assert_eq!(Nag::from_symbol("$1"), None); // Use from_dollar_notation
}

#[test]
fn test_from_dollar() {
    assert_eq!(Nag::from_dollar_notation("$1"), Some(Nag(1)));
    assert_eq!(Nag::from_dollar_notation("$14"), Some(Nag(14)));
    assert_eq!(Nag::from_dollar_notation("14"), None);
}

#[test]
fn test_from_dollar_all_values() {
    assert_eq!(Nag::from_dollar_notation("$0"), Some(Nag(0)));
    assert_eq!(Nag::from_dollar_notation("$1"), Some(Nag(1)));
    assert_eq!(Nag::from_dollar_notation("$100"), Some(Nag(100)));
    assert_eq!(Nag::from_dollar_notation("$255"), Some(Nag(255)));
}

#[test]
fn test_from_dollar_boundary_values() {
    // u8 boundaries
    assert_eq!(Nag::from_dollar_notation("$0"), Some(Nag(0)));
    assert_eq!(Nag::from_dollar_notation("$255"), Some(Nag(255)));
}

#[test]
fn test_from_dollar_overflow() {
    // Values > 255 should fail
    assert_eq!(Nag::from_dollar_notation("$256"), None);
    assert_eq!(Nag::from_dollar_notation("$1000"), None);
}

#[test]
fn test_from_dollar_invalid() {
    assert_eq!(Nag::from_dollar_notation(""), None);
    assert_eq!(Nag::from_dollar_notation("$"), None);
    assert_eq!(Nag::from_dollar_notation("$-1"), None);
    assert_eq!(Nag::from_dollar_notation("$abc"), None);
    assert_eq!(Nag::from_dollar_notation("1"), None);
    assert_eq!(Nag::from_dollar_notation("$1.5"), None);
}

#[test]
fn test_display_symbolic() {
    assert_eq!(Nag(1).to_string(), "!");
    assert_eq!(Nag(2).to_string(), "?");
    assert_eq!(Nag(3).to_string(), "!!");
    assert_eq!(Nag(4).to_string(), "??");
    assert_eq!(Nag(5).to_string(), "!?");
    assert_eq!(Nag(6).to_string(), "?!");
}

#[test]
fn test_display_positional() {
    assert_eq!(Nag(10).to_string(), "=");
    assert_eq!(Nag(14).to_string(), "+=");
    assert_eq!(Nag(18).to_string(), "+-");
    assert_eq!(Nag(19).to_string(), "-+");
}

#[test]
fn test_display_numeric() {
    // NAGs without symbols display as $N
    assert_eq!(Nag(0).to_string(), "$0");
    assert_eq!(Nag(7).to_string(), "$7");
    assert_eq!(Nag(100).to_string(), "$100");
    assert_eq!(Nag(255).to_string(), "$255");
}

#[test]
fn test_nag_equality() {
    assert_eq!(Nag(1), Nag(1));
    assert_eq!(Nag::GOOD_MOVE(), Nag(1));
    assert_ne!(Nag(1), Nag(2));
}

#[test]
fn test_nag_clone() {
    let nag = Nag(5);
    let cloned = nag;  // Copy
    assert_eq!(nag, cloned);
}

#[test]
fn test_nag_copy() {
    let nag = Nag(10);
    let copied = nag;
    assert_eq!(nag, copied);
}

#[test]
fn test_nag_hash() {
    let mut set = HashSet::new();
    set.insert(Nag(1));
    set.insert(Nag(2));
    set.insert(Nag(1)); // Duplicate

    assert_eq!(set.len(), 2);
    assert!(set.contains(&Nag(1)));
    assert!(set.contains(&Nag(2)));
}

#[test]
fn test_symbol_roundtrip() {
    let nags = [
        Nag::GOOD_MOVE(),
        Nag::POOR_MOVE(),
        Nag::BRILLIANT_MOVE(),
        Nag::BLUNDER(),
        Nag::INTERESTING_MOVE(),
        Nag::DUBIOUS_MOVE(),
    ];

    for nag in nags {
        let symbol = nag.to_symbol().unwrap();
        let parsed = Nag::from_symbol(symbol).unwrap();
        assert_eq!(nag, parsed);
    }
}

#[test]
fn test_dollar_display_roundtrip() {
    // For NAGs without symbols, Display produces $N which should parse back
    for i in [0u8, 7, 8, 9, 11, 12, 13, 20, 100, 255] {
        let nag = Nag(i);
        let display = nag.to_string();
        let parsed = Nag::from_dollar_notation(&display).unwrap();
        assert_eq!(nag, parsed);
    }
}

#[test]
fn test_nag_zero() {
    let nag = Nag(0);
    assert_eq!(nag.to_symbol(), None);
    assert_eq!(nag.to_string(), "$0");
}

#[test]
fn test_nag_max() {
    let nag = Nag(255);
    assert_eq!(nag.to_symbol(), None);
    assert_eq!(nag.to_string(), "$255");
}

#[test]
fn test_uncommon_nags() {
    // Test some uncommon but valid NAGs
    // $13 = unclear, $36 = with initiative, etc.
    for i in 20..=50 {
        let nag = Nag(i);
        // Should not panic
        let _ = nag.to_symbol();
        let _ = nag.to_string();
    }
}

