use uc::common::Loc;
use uc::lexer::{lex, LexError, LexErrorKind, Lexer};
use uc::token::TokenKind;

#[test]
fn basic() {
    let code = "define i; i = 0; while (i < 10) { i = i + 1; }";
    let mut lexer_iter = Lexer::new(&code).into_iter();
    assert_eq!(lexer_iter.next().unwrap().val, TokenKind::Define);
    assert_eq!(lexer_iter.next().unwrap().val, TokenKind::Name("i".to_string()));
    assert_eq!(lexer_iter.next().unwrap().val, TokenKind::Semicolon);
    assert_eq!(lexer_iter.next().unwrap().val, TokenKind::Name("i".to_string()));
    assert_eq!(lexer_iter.next().unwrap().val, TokenKind::Equal);
    assert_eq!(lexer_iter.next().unwrap().val, TokenKind::Number(0));
    assert_eq!(lexer_iter.next().unwrap().val, TokenKind::Semicolon);
    assert_eq!(lexer_iter.next().unwrap().val, TokenKind::While);
    assert_eq!(lexer_iter.next().unwrap().val, TokenKind::LParen);
    assert_eq!(lexer_iter.next().unwrap().val, TokenKind::Name("i".to_string()));
    assert_eq!(lexer_iter.next().unwrap().val, TokenKind::LessThan);
    assert_eq!(lexer_iter.next().unwrap().val, TokenKind::Number(10));
    assert_eq!(lexer_iter.next().unwrap().val, TokenKind::RParen);
    assert_eq!(lexer_iter.next().unwrap().val, TokenKind::LBrace);
    assert_eq!(lexer_iter.next().unwrap().val, TokenKind::Name("i".to_string()));
    assert_eq!(lexer_iter.next().unwrap().val, TokenKind::Equal);
    assert_eq!(lexer_iter.next().unwrap().val, TokenKind::Name("i".to_string()));
    assert_eq!(lexer_iter.next().unwrap().val, TokenKind::Plus);
    assert_eq!(lexer_iter.next().unwrap().val, TokenKind::Number(1));
    assert_eq!(lexer_iter.next().unwrap().val, TokenKind::Semicolon);
    assert_eq!(lexer_iter.next().unwrap().val, TokenKind::RBrace);
    assert_eq!(lexer_iter.next(), None);
}

#[test]
fn location() {
    let code = "define i;\ni = 0;";
    let mut lexer_iter = Lexer::new(&code).into_iter();
    assert_eq!(lexer_iter.next().unwrap().loc, Loc { lin: 1, col: 1, abs: 0 }); // define
    assert_eq!(lexer_iter.next().unwrap().loc, Loc { lin: 1, col: 8, abs: 7 }); // i
    assert_eq!(lexer_iter.next().unwrap().loc, Loc { lin: 1, col: 9, abs: 8 }); // ;
    assert_eq!(lexer_iter.next().unwrap().loc, Loc { lin: 2, col: 1, abs: 10 }); // i
    assert_eq!(lexer_iter.next().unwrap().loc, Loc { lin: 2, col: 3, abs: 12 }); // =
    assert_eq!(lexer_iter.next().unwrap().loc, Loc { lin: 2, col: 5, abs: 14 }); // 0
    assert_eq!(lexer_iter.next().unwrap().loc, Loc { lin: 2, col: 6, abs: 15 }); // ;
    assert_eq!(lexer_iter.next(), None);
}

fn kinds(code: &str) -> Vec<TokenKind> {
    let (tokens, error) = lex(code);
    assert_eq!(error, None);
    tokens.into_iter().map(|t| t.val).collect()
}

fn name(s: &str) -> TokenKind {
    TokenKind::Name(s.to_string())
}

#[test]
fn whitespace_only_gives_no_token() {
    for code in ["", " ", "\t", "\n", "  \t\n \n\t  "] {
        let mut lexer = Lexer::new(code);
        assert_eq!(lexer.tokenize(), Ok(None));
        let mut iter = Lexer::new(code).into_iter();
        assert_eq!(iter.next(), None);
        assert_eq!(iter.failure(), None);
    }
}

#[test]
fn numbers_read_in_base_ten() {
    assert_eq!(kinds("7"), vec![TokenKind::Number(7)]);
    assert_eq!(kinds("12345"), vec![TokenKind::Number(12345)]);
    assert_eq!(kinds("007"), vec![TokenKind::Number(7)]);
    assert_eq!(kinds("10;"), vec![TokenKind::Number(10), TokenKind::Semicolon]);
    assert_eq!(kinds("1 2"), vec![TokenKind::Number(1), TokenKind::Number(2)]);
    assert_eq!(kinds("9223372036854775807"), vec![TokenKind::Number(i64::MAX)]);
}

#[test]
fn number_too_large_is_rejected() {
    let code = "x = 9223372036854775808;";
    let mut iter = Lexer::new(code).into_iter();
    assert_eq!(iter.next().unwrap().val, name("x"));
    assert_eq!(iter.next().unwrap().val, TokenKind::Equal);
    assert_eq!(iter.next(), None);
    assert_eq!(
        iter.failure(),
        Some(LexError { kind: LexErrorKind::NumberTooLarge, loc: Loc { lin: 1, col: 5, abs: 4 } })
    );
    assert_eq!(iter.next(), None);
    let (tokens, error) = lex("99999999999999999999999");
    assert!(tokens.is_empty());
    assert_eq!(
        error,
        Some(LexError { kind: LexErrorKind::NumberTooLarge, loc: Loc { lin: 1, col: 1, abs: 0 } })
    );
}

#[test]
fn keywords_are_never_names() {
    assert_eq!(
        kinds("while define if else"),
        vec![TokenKind::While, TokenKind::Define, TokenKind::If, TokenKind::Else]
    );
    assert_eq!(kinds("if(x)"), vec![TokenKind::If, TokenKind::LParen, name("x"), TokenKind::RParen]);
}

#[test]
fn other_words_are_names() {
    assert_eq!(kinds("whilex"), vec![name("whilex")]);
    assert_eq!(kinds("While"), vec![name("While")]);
    assert_eq!(kinds("i"), vec![name("i")]);
    assert_eq!(kinds("a1b2 x9"), vec![name("a1b2"), name("x9")]);
    assert_eq!(kinds("definedef els"), vec![name("definedef"), name("els")]);
    assert_eq!(kinds("9abc"), vec![TokenKind::Number(9), name("abc")]);
}

#[test]
fn punctuation_is_one_byte_each() {
    assert_eq!(
        kinds("+-*/(){};=<"),
        vec![
            TokenKind::Plus,
            TokenKind::Minus,
            TokenKind::Asterisk,
            TokenKind::Slash,
            TokenKind::LParen,
            TokenKind::RParen,
            TokenKind::LBrace,
            TokenKind::RBrace,
            TokenKind::Semicolon,
            TokenKind::Equal,
            TokenKind::LessThan,
        ]
    );
    assert_eq!(kinds("=="), vec![TokenKind::Equal, TokenKind::Equal]);
}

#[test]
fn location_follows_newlines() {
    let (tokens, error) = lex("a\n\tbc d\n\n  e");
    assert_eq!(error, None);
    let locs: Vec<Loc> = tokens.iter().map(|t| t.loc).collect();
    assert_eq!(
        locs,
        vec![
            Loc { lin: 1, col: 1, abs: 0 },
            Loc { lin: 2, col: 2, abs: 3 },
            Loc { lin: 2, col: 5, abs: 6 },
            Loc { lin: 4, col: 3, abs: 11 },
        ]
    );
}

#[test]
fn loc_advance_counts_bytes() {
    let mut loc = Loc::new();
    assert_eq!(loc, Loc { lin: 1, col: 1, abs: 0 });
    loc.advance(b'a');
    assert_eq!(loc, Loc { lin: 1, col: 2, abs: 1 });
    loc.advance(b'\n');
    assert_eq!(loc, Loc { lin: 2, col: 1, abs: 2 });
    loc.advance(b'\t');
    assert_eq!(loc, Loc { lin: 2, col: 2, abs: 3 });
}

#[test]
fn rescanning_gives_identical_tokens() {
    let code = "define n; n = 42;\nwhile (n < 100) { n = n * 2; }";
    let first = lex(code);
    let second = lex(code);
    assert_eq!(first, second);
    assert_eq!(first.0.len(), 21);
    let mut a = Lexer::new(code).into_iter();
    let mut b = Lexer::new(code).into_iter();
    loop {
        let x = a.next();
        let y = b.next();
        assert_eq!(x, y);
        if x.is_none() {
            break;
        }
    }
}

#[test]
fn scenario_define() {
    assert_eq!(
        kinds("define i; i = 0;"),
        vec![
            TokenKind::Define,
            name("i"),
            TokenKind::Semicolon,
            name("i"),
            TokenKind::Equal,
            TokenKind::Number(0),
            TokenKind::Semicolon,
        ]
    );
    let mut iter = Lexer::new("define i; i = 0;").into_iter();
    for _ in 0..7 {
        assert!(iter.next().is_some());
    }
    assert_eq!(iter.next(), None);
}

#[test]
fn scenario_while() {
    assert_eq!(
        kinds("while (i < 10) { i = i + 1; }"),
        vec![
            TokenKind::While,
            TokenKind::LParen,
            name("i"),
            TokenKind::LessThan,
            TokenKind::Number(10),
            TokenKind::RParen,
            TokenKind::LBrace,
            name("i"),
            TokenKind::Equal,
            name("i"),
            TokenKind::Plus,
            TokenKind::Number(1),
            TokenKind::Semicolon,
            TokenKind::RBrace,
        ]
    );
}

#[test]
fn scenario_location_after_newline() {
    let (tokens, error) = lex("define i;\ni = 0;");
    assert_eq!(error, None);
    assert_eq!(tokens[3].val, name("i"));
    assert_eq!(tokens[3].loc, Loc { lin: 2, col: 1, abs: 10 });
}

#[test]
fn scenario_unknown_byte() {
    let mut iter = Lexer::new("@").into_iter();
    assert_eq!(iter.next(), None);
    assert_eq!(
        iter.failure(),
        Some(LexError { kind: LexErrorKind::UnknownByte(b'@'), loc: Loc { lin: 1, col: 1, abs: 0 } })
    );
    let (tokens, error) = lex("@");
    assert!(tokens.is_empty());
    assert_eq!(
        error,
        Some(LexError { kind: LexErrorKind::UnknownByte(b'@'), loc: Loc { lin: 1, col: 1, abs: 0 } })
    );
}

#[test]
fn unknown_byte_stops_the_scan() {
    let (tokens, error) = lex("a\n b # c");
    assert_eq!(tokens.len(), 2);
    assert_eq!(
        error,
        Some(LexError { kind: LexErrorKind::UnknownByte(b'#'), loc: Loc { lin: 2, col: 4, abs: 5 } })
    );
    let mut lexer = Lexer::new("  !");
    assert_eq!(
        lexer.tokenize(),
        Err(LexError { kind: LexErrorKind::UnknownByte(b'!'), loc: Loc { lin: 1, col: 3, abs: 2 } })
    );
}

#[test]
fn non_ascii_byte_is_unknown() {
    let (tokens, error) = lex("x é");
    assert_eq!(tokens.len(), 1);
    assert_eq!(
        error,
        Some(LexError { kind: LexErrorKind::UnknownByte(0xC3), loc: Loc { lin: 1, col: 3, abs: 2 } })
    );
}

#[test]
fn tokenize_returns_one_token_at_a_time() {
    let mut lexer = Lexer::new(" ab1 ");
    let token = lexer.tokenize().unwrap().unwrap();
    assert_eq!(token.val, name("ab1"));
    assert_eq!(token.loc, Loc { lin: 1, col: 2, abs: 1 });
    assert_eq!(lexer.tokenize(), Ok(None));
}
