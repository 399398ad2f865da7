use uc::common::{is_alphabetic, is_alphanumeric, is_numeric, is_whitespace, Annot, Loc};
use uc::token::{keyword, punct, TokenKind};

#[test]
fn byte_classes() {
    for b in 0u8..=255 {
        assert_eq!(is_whitespace(b), b == b' ' || b == b'\t' || b == b'\n');
        assert_eq!(is_alphabetic(b), b.is_ascii_alphabetic());
        assert_eq!(is_numeric(b), b.is_ascii_digit());
        assert_eq!(is_alphanumeric(b), b.is_ascii_alphanumeric());
    }
    assert!(!is_whitespace(b'\r'));
}

#[test]
fn annot_keeps_value_and_location() {
    let loc = Loc { lin: 3, col: 4, abs: 20 };
    let a = Annot::new(TokenKind::Plus, loc);
    assert_eq!(a.val, TokenKind::Plus);
    assert_eq!(a.loc, loc);
}

#[test]
fn keyword_table() {
    assert_eq!(keyword(&"while".to_string()), Some(TokenKind::While));
    assert_eq!(keyword(&"define".to_string()), Some(TokenKind::Define));
    assert_eq!(keyword(&"if".to_string()), Some(TokenKind::If));
    assert_eq!(keyword(&"else".to_string()), Some(TokenKind::Else));
    assert_eq!(keyword(&"whil".to_string()), None);
    assert_eq!(keyword(&"IF".to_string()), None);
    assert_eq!(punct(b'<'), Some(TokenKind::LessThan));
    assert_eq!(punct(b'>'), None);
}
