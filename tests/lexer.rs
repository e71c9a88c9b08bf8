use sklang::lexer::{LexError, Lexer};
use sklang::token::{get_keyword, Span, Token, TokenKind};

fn kinds(src: &str) -> Vec<TokenKind> {
    Lexer::new(src).scan().unwrap().iter().map(|t| t.kind).collect()
}

#[test]
fn empty_input_is_end_of_stream() {
    let tokens = Lexer::new("").scan().unwrap();
    assert_eq!(tokens.len(), 1);
    assert_eq!(tokens[0].kind, TokenKind::EndOfFile);
    assert_eq!(tokens[0].span, Span { start: 0, end: 0 });
}

#[test]
fn whitespace_input_is_end_of_stream() {
    let tokens = Lexer::new(" \t\r\n  \n").scan().unwrap();
    assert_eq!(tokens.len(), 1);
    assert_eq!(tokens[0].kind, TokenKind::EndOfFile);
    assert_eq!(tokens[0].span.start, 7);
}

#[test]
fn double_equal_is_one_token() {
    assert_eq!(kinds("=="), vec![TokenKind::EqualEqual, TokenKind::EndOfFile]);
}

#[test]
fn arrow_is_one_token() {
    assert_eq!(kinds("->"), vec![TokenKind::RArrow, TokenKind::EndOfFile]);
}

#[test]
fn two_byte_operators_win_over_prefixes() {
    assert_eq!(
        kinds("+= -= // <- :: := <= >= != ="),
        vec![
            TokenKind::PlusEqual,
            TokenKind::MinusEqual,
            TokenKind::SlashSlash,
            TokenKind::LArrow,
            TokenKind::ColonColon,
            TokenKind::ColonEqual,
            TokenKind::LessEqual,
            TokenKind::MoreEqual,
            TokenKind::BangEqual,
            TokenKind::Equal,
            TokenKind::EndOfFile,
        ]
    );
}

#[test]
fn single_byte_tokens() {
    assert_eq!(
        kinds("()[]{}+-*/^%,.:;@#&<>!"),
        vec![
            TokenKind::LPar,
            TokenKind::RPar,
            TokenKind::LBrac,
            TokenKind::RBrac,
            TokenKind::LCurl,
            TokenKind::RCurl,
            TokenKind::Plus,
            TokenKind::Minus,
            TokenKind::Star,
            TokenKind::Slash,
            TokenKind::Caret,
            TokenKind::Modulo,
            TokenKind::Comma,
            TokenKind::Dot,
            TokenKind::Colon,
            TokenKind::Semicolon,
            TokenKind::At,
            TokenKind::Hash,
            TokenKind::Ampersand,
            TokenKind::Less,
            TokenKind::More,
            TokenKind::Bang,
            TokenKind::EndOfFile,
        ]
    );
}

#[test]
fn keywords_and_identifiers() {
    let tokens = Lexer::new("val var x_1 func mut if else elif for while new _tmp").scan().unwrap();
    let k: Vec<TokenKind> = tokens.iter().map(|t| t.kind).collect();
    assert_eq!(
        k,
        vec![
            TokenKind::Val,
            TokenKind::Var,
            TokenKind::Identifier,
            TokenKind::Func,
            TokenKind::Mut,
            TokenKind::If,
            TokenKind::Else,
            TokenKind::Elif,
            TokenKind::For,
            TokenKind::While,
            TokenKind::New,
            TokenKind::Identifier,
            TokenKind::EndOfFile,
        ]
    );
    assert_eq!(tokens[0].value, None);
    assert_eq!(tokens[2].value, Some(String::from("x_1")));
    assert_eq!(tokens[2].span, Span { start: 8, end: 10 });
    assert_eq!(tokens[11].value, Some(String::from("_tmp")));
}

#[test]
fn numbers_keep_their_text() {
    let tokens = Lexer::new("12 3.25 1_000 1.2.3").scan().unwrap();
    let texts: Vec<Option<String>> = tokens.iter().map(|t| t.value.clone()).collect();
    assert_eq!(
        texts,
        vec![
            Some(String::from("12")),
            Some(String::from("3.25")),
            Some(String::from("1_000")),
            Some(String::from("1.2")),
            None,
            Some(String::from("3")),
            None,
        ]
    );
    let k: Vec<TokenKind> = tokens.iter().map(|t| t.kind).collect();
    assert_eq!(
        k,
        vec![
            TokenKind::Number,
            TokenKind::Number,
            TokenKind::Number,
            TokenKind::Number,
            TokenKind::Dot,
            TokenKind::Number,
            TokenKind::EndOfFile,
        ]
    );
    assert_eq!(tokens[1].span, Span { start: 3, end: 6 });
    assert_eq!(tokens[4].span, Span { start: 17, end: 17 });
}

#[test]
fn number_takes_one_dot() {
    let tokens = Lexer::new("1..2 3._4").scan().unwrap();
    let texts: Vec<Option<String>> = tokens.iter().map(|t| t.value.clone()).collect();
    assert_eq!(
        texts,
        vec![
            Some(String::from("1.")),
            None,
            Some(String::from("2")),
            Some(String::from("3._4")),
            None,
        ]
    );
    assert_eq!(tokens[1].kind, TokenKind::Dot);
}

#[test]
fn number_followed_by_identifier() {
    let tokens = Lexer::new("42abc").scan().unwrap();
    assert_eq!(tokens[0].kind, TokenKind::Number);
    assert_eq!(tokens[0].value, Some(String::from("42")));
    assert_eq!(tokens[1].kind, TokenKind::Identifier);
    assert_eq!(tokens[1].value, Some(String::from("abc")));
}

#[test]
fn string_literal_text_and_span() {
    let tokens = Lexer::new("x = \"héllo wörld\";").scan().unwrap();
    assert_eq!(tokens[2].kind, TokenKind::Literal);
    assert_eq!(tokens[2].value, Some(String::from("héllo wörld")));
    assert_eq!(tokens[2].span, Span { start: 4, end: 18 });
    assert_eq!(tokens[3].kind, TokenKind::Semicolon);
}

#[test]
fn empty_string_literal() {
    let tokens = Lexer::new("\"\"").scan().unwrap();
    assert_eq!(
        tokens[0],
        Token { kind: TokenKind::Literal, span: Span { start: 0, end: 1 }, value: Some(String::new()) }
    );
}

#[test]
fn unterminated_string_fails() {
    assert_eq!(Lexer::new("\"abc").scan(), Err(LexError::UnterminatedString(0)));
    assert_eq!(Lexer::new("x = \"abc").scan(), Err(LexError::UnterminatedString(4)));
}

#[test]
fn unrecognized_byte_fails() {
    assert_eq!(Lexer::new("a $ b").scan(), Err(LexError::UnrecognizedByte(2)));
    assert_eq!(Lexer::new("é").scan(), Err(LexError::UnrecognizedByte(0)));
    assert_eq!(Lexer::new("ab\u{e9}").scan(), Err(LexError::UnrecognizedByte(2)));
}

#[test]
fn keyword_lookup() {
    assert_eq!(get_keyword(&String::from("func")), Some(TokenKind::Func));
    assert_eq!(get_keyword(&String::from("var")), Some(TokenKind::Var));
    assert_eq!(TokenKind::get_keyword(&String::from("while")), Some(TokenKind::While));
    assert_eq!(get_keyword(&String::from("funcs")), None);
    assert_eq!(get_keyword(&String::from("")), None);
}

#[test]
fn token_kind_classes() {
    assert!(TokenKind::Number.is_leaf_node());
    assert!(TokenKind::Literal.is_leaf_node());
    assert!(TokenKind::Identifier.is_leaf_node());
    assert!(!TokenKind::Plus.is_leaf_node());
    assert!(TokenKind::Caret.binary_operator().is_some());
    assert!(TokenKind::Equal.binary_operator().is_none());
}

#[test]
fn span_from_length() {
    assert_eq!(Span::from(4, 3), Span { start: 4, end: 6 });
    assert_eq!(Span::from(0, 1), Span { start: 0, end: 0 });
}

#[test]
fn scan_ends_with_one_end_token() {
    let tokens = Lexer::new("val x = \"a\" + 1.5 // y").scan().unwrap();
    let ends = tokens.iter().filter(|t| t.kind == TokenKind::EndOfFile).count();
    assert_eq!(ends, 1);
    assert_eq!(tokens.last().unwrap().kind, TokenKind::EndOfFile);
    assert_eq!(tokens.last().unwrap().span, Span { start: 22, end: 22 });
}

#[test]
fn adjacent_tokens_never_spell_a_pair() {
    assert_eq!(kinds("==="), vec![TokenKind::EqualEqual, TokenKind::Equal, TokenKind::EndOfFile]);
    assert_eq!(kinds("->>"), vec![TokenKind::RArrow, TokenKind::More, TokenKind::EndOfFile]);
    assert_eq!(kinds("= ="), vec![TokenKind::Equal, TokenKind::Equal, TokenKind::EndOfFile]);
    assert_eq!(kinds("<-="), vec![TokenKind::LArrow, TokenKind::Equal, TokenKind::EndOfFile]);
}
