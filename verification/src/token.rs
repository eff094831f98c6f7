use vstd::prelude::*;

verus! {

/// The kinds of token that the lexer produces.
///
/// A number keeps the digits it was written with: turning them into a numeric
/// value is the job of the number domain that runs the program.
#[derive(Debug, Clone, PartialEq)]
pub enum TokenKind {
    LeftParen,
    RightParen,
    LeftBrace,
    RightBrace,
    Semicolon,
    Plus,
    Minus,
    Star,
    Slash,
    Bang,
    BangEqual,
    Equal,
    EqualEqual,
    Less,
    LessEqual,
    Greater,
    GreaterEqual,
    Number(String),
    StringLit(String),
    Identifier(String),
    Let,
    Print,
    If,
    Else,
    While,
    True,
    False,
    Eof,
}

/// The mathematical model of a token kind: the same variants, with the text
/// of a number, string or identifier as a sequence of characters.
pub enum Tok {
    LeftParen,
    RightParen,
    LeftBrace,
    RightBrace,
    Semicolon,
    Plus,
    Minus,
    Star,
    Slash,
    Bang,
    BangEqual,
    Equal,
    EqualEqual,
    Less,
    LessEqual,
    Greater,
    GreaterEqual,
    Number(Seq<char>),
    StringLit(Seq<char>),
    Identifier(Seq<char>),
    Let,
    Print,
    If,
    Else,
    While,
    True,
    False,
    Eof,
}

impl View for TokenKind {
    type V = Tok;

    open spec fn view(&self) -> Tok {
        match self {
            TokenKind::LeftParen => Tok::LeftParen,
            TokenKind::RightParen => Tok::RightParen,
            TokenKind::LeftBrace => Tok::LeftBrace,
            TokenKind::RightBrace => Tok::RightBrace,
            TokenKind::Semicolon => Tok::Semicolon,
            TokenKind::Plus => Tok::Plus,
            TokenKind::Minus => Tok::Minus,
            TokenKind::Star => Tok::Star,
            TokenKind::Slash => Tok::Slash,
            TokenKind::Bang => Tok::Bang,
            TokenKind::BangEqual => Tok::BangEqual,
            TokenKind::Equal => Tok::Equal,
            TokenKind::EqualEqual => Tok::EqualEqual,
            TokenKind::Less => Tok::Less,
            TokenKind::LessEqual => Tok::LessEqual,
            TokenKind::Greater => Tok::Greater,
            TokenKind::GreaterEqual => Tok::GreaterEqual,
            TokenKind::Number(s) => Tok::Number(s@),
            TokenKind::StringLit(s) => Tok::StringLit(s@),
            TokenKind::Identifier(s) => Tok::Identifier(s@),
            TokenKind::Let => Tok::Let,
            TokenKind::Print => Tok::Print,
            TokenKind::If => Tok::If,
            TokenKind::Else => Tok::Else,
            TokenKind::While => Tok::While,
            TokenKind::True => Tok::True,
            TokenKind::False => Tok::False,
            TokenKind::Eof => Tok::Eof,
        }
    }
}

/// A token and the line it was found on.
#[derive(Debug, Clone, PartialEq)]
pub struct Token {
    pub kind: TokenKind,
    pub line: usize,
}

/// The model of a token: its kind's model and its line.
pub struct TokenModel {
    pub kind: Tok,
    pub line: nat,
}

impl View for Token {
    type V = TokenModel;

    open spec fn view(&self) -> TokenModel {
        TokenModel { kind: self.kind@, line: self.line as nat }
    }
}

impl TokenKind {
    /// A copy of the kind with the same model.
    pub fn duplicate(&self) -> (r: TokenKind)
        ensures
            r@ == self@,
    {
        match self {
            TokenKind::Number(s) => TokenKind::Number(s.clone()),
            TokenKind::StringLit(s) => TokenKind::StringLit(s.clone()),
            TokenKind::Identifier(s) => TokenKind::Identifier(s.clone()),
            TokenKind::LeftParen => TokenKind::LeftParen,
            TokenKind::RightParen => TokenKind::RightParen,
            TokenKind::LeftBrace => TokenKind::LeftBrace,
            TokenKind::RightBrace => TokenKind::RightBrace,
            TokenKind::Semicolon => TokenKind::Semicolon,
            TokenKind::Plus => TokenKind::Plus,
            TokenKind::Minus => TokenKind::Minus,
            TokenKind::Star => TokenKind::Star,
            TokenKind::Slash => TokenKind::Slash,
            TokenKind::Bang => TokenKind::Bang,
            TokenKind::BangEqual => TokenKind::BangEqual,
            TokenKind::Equal => TokenKind::Equal,
            TokenKind::EqualEqual => TokenKind::EqualEqual,
            TokenKind::Less => TokenKind::Less,
            TokenKind::LessEqual => TokenKind::LessEqual,
            TokenKind::Greater => TokenKind::Greater,
            TokenKind::GreaterEqual => TokenKind::GreaterEqual,
            TokenKind::Let => TokenKind::Let,
            TokenKind::Print => TokenKind::Print,
            TokenKind::If => TokenKind::If,
            TokenKind::Else => TokenKind::Else,
            TokenKind::While => TokenKind::While,
            TokenKind::True => TokenKind::True,
            TokenKind::False => TokenKind::False,
            TokenKind::Eof => TokenKind::Eof,
        }
    }
}

impl Tok {
    /// Which variant this is, ignoring any text it carries.
    pub open spec fn variant(self) -> nat {
        match self {
            Tok::LeftParen => 0nat,
            Tok::RightParen => 1nat,
            Tok::LeftBrace => 2nat,
            Tok::RightBrace => 3nat,
            Tok::Semicolon => 4nat,
            Tok::Plus => 5nat,
            Tok::Minus => 6nat,
            Tok::Star => 7nat,
            Tok::Slash => 8nat,
            Tok::Bang => 9nat,
            Tok::BangEqual => 10nat,
            Tok::Equal => 11nat,
            Tok::EqualEqual => 12nat,
            Tok::Less => 13nat,
            Tok::LessEqual => 14nat,
            Tok::Greater => 15nat,
            Tok::GreaterEqual => 16nat,
            Tok::Number(_) => 17nat,
            Tok::StringLit(_) => 18nat,
            Tok::Identifier(_) => 19nat,
            Tok::Let => 20nat,
            Tok::Print => 21nat,
            Tok::If => 22nat,
            Tok::Else => 23nat,
            Tok::While => 24nat,
            Tok::True => 25nat,
            Tok::False => 26nat,
            Tok::Eof => 27nat,
        }
    }
}

impl TokenKind {
    /// Which variant this is, ignoring any text it carries (what
    /// `std::mem::discriminant` tells apart).
    pub fn variant(&self) -> (r: u8)
        ensures
            r as nat == self@.variant(),
    {
        match self {
            TokenKind::LeftParen => 0u8,
            TokenKind::RightParen => 1u8,
            TokenKind::LeftBrace => 2u8,
            TokenKind::RightBrace => 3u8,
            TokenKind::Semicolon => 4u8,
            TokenKind::Plus => 5u8,
            TokenKind::Minus => 6u8,
            TokenKind::Star => 7u8,
            TokenKind::Slash => 8u8,
            TokenKind::Bang => 9u8,
            TokenKind::BangEqual => 10u8,
            TokenKind::Equal => 11u8,
            TokenKind::EqualEqual => 12u8,
            TokenKind::Less => 13u8,
            TokenKind::LessEqual => 14u8,
            TokenKind::Greater => 15u8,
            TokenKind::GreaterEqual => 16u8,
            TokenKind::Number(_) => 17u8,
            TokenKind::StringLit(_) => 18u8,
            TokenKind::Identifier(_) => 19u8,
            TokenKind::Let => 20u8,
            TokenKind::Print => 21u8,
            TokenKind::If => 22u8,
            TokenKind::Else => 23u8,
            TokenKind::While => 24u8,
            TokenKind::True => 25u8,
            TokenKind::False => 26u8,
            TokenKind::Eof => 27u8,
        }
    }
}

} // verus!
