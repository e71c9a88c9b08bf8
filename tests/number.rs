use sklang::ast::Node;
use sklang::lexer::Lexer;
use sklang::number::parse_number;
use sklang::token::TokenKind;

fn round_trip(text: &str) -> Option<Node> {
    let tokens = Lexer::new(text).scan().unwrap();
    assert_eq!(tokens.len(), 2);
    assert_eq!(tokens[0].kind, TokenKind::Number);
    parse_number(tokens[0].value.as_ref().unwrap())
}

#[test]
fn integer_round_trip() {
    for n in [0i32, 7, 10, 12345, i32::MAX] {
        assert_eq!(round_trip(&n.to_string()), Some(Node::Integer(n)));
    }
}

#[test]
fn decimal_round_trip() {
    for (text, value) in [("3.25", 3.25f64), ("0.5", 0.5), ("10.", 10.0), ("1.000", 1.0)] {
        match round_trip(text) {
            Some(Node::Float(t)) => {
                assert_eq!(t, text);
                assert_eq!(t.parse::<f64>().unwrap(), value);
            }
            other => panic!("unexpected {:?}", other),
        }
    }
}

#[test]
fn integer_too_large_is_malformed() {
    assert_eq!(parse_number(&String::from("2147483648")), None);
    assert_eq!(parse_number(&String::from("2147483647")), Some(Node::Integer(2147483647)));
}

#[test]
fn separators_are_dropped() {
    assert_eq!(parse_number(&String::from("1_000")), Some(Node::Integer(1000)));
    assert_eq!(parse_number(&String::from("1_0.2_5")), Some(Node::Float(String::from("10.25"))));
    assert_eq!(parse_number(&String::from("2_147_483_647")), Some(Node::Integer(i32::MAX)));
    assert_eq!(parse_number(&String::from("_")), None);
    assert_eq!(round_trip("3_000"), Some(Node::Integer(3000)));
}

#[test]
fn extra_dots_are_malformed() {
    assert_eq!(parse_number(&String::from("1.2.3")), None);
    assert_eq!(parse_number(&String::from(".")), None);
    assert_eq!(parse_number(&String::from("")), None);
    assert_eq!(parse_number(&String::from("1é")), None);
}

#[test]
fn leading_zeros_are_read() {
    assert_eq!(parse_number(&String::from("007")), Some(Node::Integer(7)));
}
