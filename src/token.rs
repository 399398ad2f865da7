//! Token kinds and the tables of reserved words and punctuation.
use vstd::prelude::*;
use crate::common::Annot;

verus! {

#[derive(Debug, PartialEq, Eq)]
pub enum TokenKind {
    Number(i64),
    Name(String),
    While,
    If,
    Else,
    Define,
    Plus,
    Minus,
    Asterisk,
    Slash,
    LParen,
    RParen,
    LBrace,
    RBrace,
    Semicolon,
    Equal,
    LessThan,
}

/// A token kind as a mathematical value: a number as an integer, a name as its characters.
pub ghost enum KindView {
    Number(int),
    Name(Seq<char>),
    While,
    If,
    Else,
    Define,
    Plus,
    Minus,
    Asterisk,
    Slash,
    LParen,
    RParen,
    LBrace,
    RBrace,
    Semicolon,
    Equal,
    LessThan,
}

impl View for TokenKind {
    type V = KindView;

    open spec fn view(&self) -> KindView {
        match self {
            TokenKind::Number(n) => KindView::Number(*n as int),
            TokenKind::Name(s) => KindView::Name(s@),
            TokenKind::While => KindView::While,
            TokenKind::If => KindView::If,
            TokenKind::Else => KindView::Else,
            TokenKind::Define => KindView::Define,
            TokenKind::Plus => KindView::Plus,
            TokenKind::Minus => KindView::Minus,
            TokenKind::Asterisk => KindView::Asterisk,
            TokenKind::Slash => KindView::Slash,
            TokenKind::LParen => KindView::LParen,
            TokenKind::RParen => KindView::RParen,
            TokenKind::LBrace => KindView::LBrace,
            TokenKind::RBrace => KindView::RBrace,
            TokenKind::Semicolon => KindView::Semicolon,
            TokenKind::Equal => KindView::Equal,
            TokenKind::LessThan => KindView::LessThan,
        }
    }
}

pub type Token = Annot<TokenKind>;

/// The reserved word spelled by `text`, if it spells one.
pub open spec fn keyword_of(text: Seq<char>) -> Option<KindView> {
    if text == "while"@ {
        Some(KindView::While)
    } else if text == "define"@ {
        Some(KindView::Define)
    } else if text == "if"@ {
        Some(KindView::If)
    } else if text == "else"@ {
        Some(KindView::Else)
    } else {
        None
    }
}

/// The single-byte operator or punctuation mark that `byte` stands for, if any.
pub open spec fn punct_of(byte: u8) -> Option<KindView> {
    if byte == 43u8 {
        Some(KindView::Plus)
    } else if byte == 45u8 {
        Some(KindView::Minus)
    } else if byte == 42u8 {
        Some(KindView::Asterisk)
    } else if byte == 47u8 {
        Some(KindView::Slash)
    } else if byte == 40u8 {
        Some(KindView::LParen)
    } else if byte == 41u8 {
        Some(KindView::RParen)
    } else if byte == 123u8 {
        Some(KindView::LBrace)
    } else if byte == 125u8 {
        Some(KindView::RBrace)
    } else if byte == 59u8 {
        Some(KindView::Semicolon)
    } else if byte == 61u8 {
        Some(KindView::Equal)
    } else if byte == 60u8 {
        Some(KindView::LessThan)
    } else {
        None
    }
}

/// Looks a finished identifier up in the table of reserved words.
pub fn keyword(text: &String) -> (r: Option<TokenKind>)
    ensures
        r is Some <==> keyword_of(text@) is Some,
        r is Some ==> r->0@ == keyword_of(text@)->0,
{
    if *text == "while".to_owned() {
        Some(TokenKind::While)
    } else if *text == "define".to_owned() {
        Some(TokenKind::Define)
    } else if *text == "if".to_owned() {
        Some(TokenKind::If)
    } else if *text == "else".to_owned() {
        Some(TokenKind::Else)
    } else {
        None
    }
}

/// The kind of a single-byte operator or punctuation mark.
pub fn punct(byte: u8) -> (r: Option<TokenKind>)
    ensures
        r is Some <==> punct_of(byte) is Some,
        r is Some ==> r->0@ == punct_of(byte)->0,
{
    match byte {
        43 => Some(TokenKind::Plus),
        45 => Some(TokenKind::Minus),
        42 => Some(TokenKind::Asterisk),
        47 => Some(TokenKind::Slash),
        40 => Some(TokenKind::LParen),
        41 => Some(TokenKind::RParen),
        123 => Some(TokenKind::LBrace),
        125 => Some(TokenKind::RBrace),
        59 => Some(TokenKind::Semicolon),
        61 => Some(TokenKind::Equal),
        60 => Some(TokenKind::LessThan),
        _ => None,
    }
}

} // verus!
