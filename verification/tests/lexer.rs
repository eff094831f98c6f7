use lox::lexer::{LexErrorKind, Lexer};
use lox::token::TokenKind;

/// The kinds of the tokens of `source`, with each number written the way its
/// value prints, so that `1.50` and `1.5` compare equal.
fn kinds(source: &str) -> Vec<TokenKind> {
    Lexer::new(source)
        .scan_tokens()
        .into_iter()
        .map(|token| match token.kind {
            TokenKind::Number(text) => TokenKind::Number(text.parse::<f64>().unwrap().to_string()),
            other => other,
        })
        .collect()
}

fn num(value: f64) -> TokenKind {
    TokenKind::Number(value.to_string())
}

#[test]
fn scans_single_character_tokens() {
    assert_eq!(
        kinds("(){};+-*/"),
        vec![
            TokenKind::LeftParen,
            TokenKind::RightParen,
            TokenKind::LeftBrace,
            TokenKind::RightBrace,
            TokenKind::Semicolon,
            TokenKind::Plus,
            TokenKind::Minus,
            TokenKind::Star,
            TokenKind::Slash,
            TokenKind::Eof,
        ]
    );
}

#[test]
fn scans_one_or_two_character_operators() {
    assert_eq!(
        kinds("! != = == < <= > >="),
        vec![
            TokenKind::Bang,
            TokenKind::BangEqual,
            TokenKind::Equal,
            TokenKind::EqualEqual,
            TokenKind::Less,
            TokenKind::LessEqual,
            TokenKind::Greater,
            TokenKind::GreaterEqual,
            TokenKind::Eof,
        ]
    );
}

#[test]
fn scans_integers() {
    assert_eq!(kinds("42"), vec![num(42.0), TokenKind::Eof]);
}

#[test]
fn scans_fractions_as_one_token() {
    assert_eq!(kinds("1.5"), vec![num(1.5), TokenKind::Eof]);
    assert_eq!(kinds("3.14159"), vec![num(3.14159), TokenKind::Eof]);
}

#[test]
fn scans_strings_without_quotes() {
    assert_eq!(
        kinds(r#""hello there""#),
        vec![
            TokenKind::StringLit(String::from("hello there")),
            TokenKind::Eof
        ]
    );
}

#[test]
fn scans_keywords_and_identifiers() {
    assert_eq!(
        kinds("let print if else while true false total_1"),
        vec![
            TokenKind::Let,
            TokenKind::Print,
            TokenKind::If,
            TokenKind::Else,
            TokenKind::While,
            TokenKind::True,
            TokenKind::False,
            TokenKind::Identifier(String::from("total_1")),
            TokenKind::Eof,
        ]
    );
}

#[test]
fn skips_line_comments() {
    assert_eq!(kinds("1 // ignored + 2\n3"), vec![num(1.0), num(3.0), TokenKind::Eof]);
}

#[test]
fn tracks_line_numbers() {
    let lines: Vec<usize> = Lexer::new("1\n2\n3")
        .scan_tokens()
        .into_iter()
        .map(|token| token.line)
        .collect();

    assert_eq!(lines, vec![1, 2, 3, 3]);
}

#[test]
fn numbers_keep_their_digits() {
    let tokens = Lexer::new("007.250").scan_tokens();
    assert_eq!(tokens[0].kind, TokenKind::Number(String::from("007.250")));
}

#[test]
fn a_dot_without_digits_is_not_part_of_a_number() {
    let tokens = Lexer::new("12.").scan_tokens();
    assert_eq!(tokens[0].kind, TokenKind::Number(String::from("12")));
    assert_eq!(tokens.len(), 2);
}

#[test]
fn keywords_need_the_whole_word() {
    assert_eq!(
        kinds("lets iff _if"),
        vec![
            TokenKind::Identifier(String::from("lets")),
            TokenKind::Identifier(String::from("iff")),
            TokenKind::Identifier(String::from("_if")),
            TokenKind::Eof,
        ]
    );
}

#[test]
fn unexpected_characters_are_reported_and_skipped() {
    let (tokens, errors) = Lexer::new("1 @ 2\n#").scan_all();
    let kinds: Vec<TokenKind> = tokens.into_iter().map(|t| t.kind).collect();
    assert_eq!(
        kinds,
        vec![
            TokenKind::Number(String::from("1")),
            TokenKind::Number(String::from("2")),
            TokenKind::Eof
        ]
    );
    assert_eq!(errors.len(), 2);
    assert_eq!(errors[0].kind, LexErrorKind::UnexpectedCharacter('@'));
    assert_eq!(errors[0].line, 1);
    assert_eq!(errors[1].kind, LexErrorKind::UnexpectedCharacter('#'));
    assert_eq!(errors[1].line, 2);
}

#[test]
fn an_unterminated_string_is_reported_on_the_last_line() {
    let (tokens, errors) = Lexer::new("print \"open\nstill").scan_all();
    assert_eq!(tokens.len(), 2);
    assert_eq!(tokens[0].kind, TokenKind::Print);
    assert_eq!(tokens[1].kind, TokenKind::Eof);
    assert_eq!(tokens[1].line, 2);
    assert_eq!(errors.len(), 1);
    assert_eq!(errors[0].kind, LexErrorKind::UnterminatedString);
    assert_eq!(errors[0].line, 2);
}

#[test]
fn a_string_token_is_on_the_line_where_it_closes() {
    let tokens = Lexer::new("\"a\nb\" 1").scan_tokens();
    assert_eq!(tokens[0].kind, TokenKind::StringLit(String::from("a\nb")));
    assert_eq!(tokens[0].line, 2);
    assert_eq!(tokens[1].line, 2);
}

#[test]
fn empty_source_gives_only_eof() {
    let tokens = Lexer::new("").scan_tokens();
    assert_eq!(tokens.len(), 1);
    assert_eq!(tokens[0].kind, TokenKind::Eof);
    assert_eq!(tokens[0].line, 1);
}

#[test]
fn the_only_eof_is_last_and_lines_ascend() {
    let tokens = Lexer::new("let a = 1;\n// c\n{ print a; }\n\n").scan_tokens();
    let eofs = tokens.iter().filter(|t| t.kind == TokenKind::Eof).count();
    assert_eq!(eofs, 1);
    assert_eq!(tokens.last().unwrap().kind, TokenKind::Eof);
    assert_eq!(tokens.last().unwrap().line, 5);
    for pair in tokens.windows(2) {
        assert!(pair[0].line <= pair[1].line);
    }
}

#[test]
fn advance_reads_one_character() {
    let mut lexer = Lexer::new("ab");
    assert!(!lexer.is_at_end());
    assert_eq!(lexer.advance(), 'a');
    assert_eq!(lexer.advance(), 'b');
    assert!(lexer.is_at_end());
}

#[test]
fn unicode_letters_and_digits_make_identifiers() {
    assert_eq!(
        kinds("été x٣ 3x"),
        vec![
            TokenKind::Identifier(String::from("été")),
            TokenKind::Identifier(String::from("x٣")),
            num(3.0),
            TokenKind::Identifier(String::from("x")),
            TokenKind::Eof,
        ]
    );
}

#[test]
fn a_source_split_at_a_line_break_scans_as_its_parts() {
    let a = "let x = 1; // note";
    let b = "print x;\nwhile (x) {}";
    let first = Lexer::new(a).scan_tokens();
    let second = Lexer::new(b).scan_tokens();
    let whole = Lexer::new(&format!("{}\n{}", a, b)).scan_tokens();
    let mut expected = first[..first.len() - 1].to_vec();
    for token in second {
        expected.push(lox::token::Token { kind: token.kind, line: token.line + 1 });
    }
    assert_eq!(whole, expected);
}
