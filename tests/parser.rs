use sklang::ast::{
    BinaryExpression, BinaryOperator, FunctionDeclaration, Node, VariableDeclaration,
};
use sklang::lexer::Lexer;
use sklang::parser::{ParseError, Parser, MAX_DEPTH};
use sklang::token::{Span, Token, TokenKind};

fn parse(src: &str) -> Result<Vec<Node>, ParseError> {
    let tokens = Lexer::new(src).scan().unwrap();
    Parser::new(&tokens).parse().map(|ast| ast.nodes)
}

fn integer(v: i32) -> Box<Node> {
    Box::new(Node::Integer(v))
}

fn ident(s: &str) -> Box<Node> {
    Box::new(Node::Identifier(String::from(s)))
}

fn bin(op: BinaryOperator, prec: u8, lhs: Box<Node>, rhs: Box<Node>) -> Box<Node> {
    Box::new(Node::BinaryExpression(BinaryExpression { lhs, rhs, op, prec }))
}

fn check_precedences(n: &Node) {
    match n {
        Node::BinaryExpression(b) => {
            assert_eq!(b.prec, b.op.precedence());
            check_precedences(&b.lhs);
            check_precedences(&b.rhs);
        }
        Node::VariableDeclaration(d) => check_precedences(&d.value),
        Node::FunctionDeclaration(f) => f.body.iter().for_each(check_precedences),
        _ => {}
    }
}

#[test]
fn one_plus_two() {
    assert_eq!(parse("1 + 2"), Ok(vec![*bin(BinaryOperator::Plus, 2, integer(1), integer(2))]));
}

#[test]
fn chain_leans_right() {
    let inner = bin(BinaryOperator::Plus, 2, integer(2), integer(3));
    assert_eq!(parse("1 + 2 + 3"), Ok(vec![*bin(BinaryOperator::Plus, 2, integer(1), inner)]));
}

#[test]
fn subtraction_chain_leans_right() {
    let inner = bin(BinaryOperator::Minus, 2, integer(5), integer(1));
    assert_eq!(parse("9 - 5 - 1"), Ok(vec![*bin(BinaryOperator::Minus, 2, integer(9), inner)]));
}

#[test]
fn stored_precedence_follows_the_table() {
    let nodes = parse("2 ^ 3 * 4 - 5 / 6 % 7").unwrap();
    assert_eq!(nodes.len(), 1);
    nodes.iter().for_each(check_precedences);
    match &nodes[0] {
        Node::BinaryExpression(b) => {
            assert_eq!(b.op, BinaryOperator::Exponent);
            assert_eq!(b.prec, 0);
        }
        other => panic!("unexpected {:?}", other),
    }
    assert_eq!(BinaryOperator::Multiply.precedence(), 1);
    assert_eq!(BinaryOperator::Divide.precedence(), 1);
    assert_eq!(BinaryOperator::Modulo.precedence(), 1);
    assert_eq!(BinaryOperator::Plus.precedence(), 2);
    assert_eq!(BinaryOperator::Minus.precedence(), 2);
}

#[test]
fn immutable_declaration() {
    let tokens = vec![
        Token { kind: TokenKind::Val, span: Span::from(0, 3), value: None },
        Token { kind: TokenKind::Identifier, span: Span::from(4, 1), value: Some(String::from("x")) },
        Token { kind: TokenKind::Equal, span: Span::from(6, 1), value: None },
        Token { kind: TokenKind::Number, span: Span::from(8, 1), value: Some(String::from("1")) },
    ];
    let nodes = Parser::new(&tokens).parse().unwrap().nodes;
    let d = VariableDeclaration { key: ident("x"), value: integer(1), mutable: false, annotation: None };
    assert_eq!(nodes, vec![Node::VariableDeclaration(d)]);
    assert_eq!(parse("val x = 1").unwrap(), nodes);
}

#[test]
fn annotated_mutable_declaration() {
    let d = VariableDeclaration {
        key: ident("x"),
        value: integer(1),
        mutable: true,
        annotation: Some(ident("int")),
    };
    assert_eq!(parse("var x :: int = 1"), Ok(vec![Node::VariableDeclaration(d)]));
}

#[test]
fn annotated_declaration_needs_equal() {
    assert_eq!(parse("var x :: int 1"), Ok(vec![]));
}

#[test]
fn declaration_value_is_one_operand() {
    let d = VariableDeclaration { key: ident("x"), value: integer(1), mutable: false, annotation: None };
    assert_eq!(
        parse("val x = 1 + 2"),
        Ok(vec![Node::VariableDeclaration(d), *bin(BinaryOperator::Plus, 2, integer(1), integer(2))])
    );
}

#[test]
fn member_access_and_invocation() {
    let access = VariableDeclaration {
        key: ident("x"),
        value: Box::new(Node::MemberAccess(ident("a"), ident("b"))),
        mutable: false,
        annotation: None,
    };
    let invoke = VariableDeclaration {
        key: ident("y"),
        value: Box::new(Node::MemberInvocation(ident("obj"), ident("run"))),
        mutable: false,
        annotation: None,
    };
    assert_eq!(
        parse("val x = a.b val y = obj:run"),
        Ok(vec![Node::VariableDeclaration(access), Node::VariableDeclaration(invoke)])
    );
}

#[test]
fn member_without_expression_falls_back() {
    let d = VariableDeclaration { key: ident("x"), value: ident("a"), mutable: false, annotation: None };
    assert_eq!(parse("val x = a.;"), Ok(vec![Node::VariableDeclaration(d)]));
}

#[test]
fn leaves_alone_make_no_nodes() {
    assert_eq!(parse("x y 1 \"s\""), Ok(vec![]));
    assert_eq!(parse(""), Ok(vec![]));
}

#[test]
fn trailing_operator_is_missing_operand() {
    assert_eq!(parse("1 +"), Err(ParseError::MissingOperand(1)));
}

#[test]
fn leading_operator_is_missing_operand() {
    assert_eq!(parse("+ 1"), Err(ParseError::MissingOperand(0)));
    assert_eq!(parse("1 + * 2"), Err(ParseError::MissingOperand(1)));
}

#[test]
fn malformed_number_fails() {
    assert_eq!(parse("99999999999 + 1"), Err(ParseError::MalformedNumber(0)));
    assert_eq!(parse("val x = 2147483648"), Err(ParseError::MalformedNumber(3)));
}

#[test]
fn second_dot_ends_a_number() {
    let d = VariableDeclaration {
        key: ident("x"),
        value: Box::new(Node::Float(String::from("1.2"))),
        mutable: false,
        annotation: None,
    };
    assert_eq!(parse("val x = 1.2.3"), Ok(vec![Node::VariableDeclaration(d)]));
    assert_eq!(parse("1_000 + 1"), Ok(vec![*bin(BinaryOperator::Plus, 2, integer(1000), integer(1))]));
}

#[test]
fn function_declaration() {
    let body = VariableDeclaration { key: ident("x"), value: integer(1), mutable: false, annotation: None };
    let f = FunctionDeclaration {
        name: String::from("main"),
        params: vec![],
        return_type: ident("int"),
        mutable: false,
        body: vec![Node::VariableDeclaration(body)],
    };
    assert_eq!(parse("func main() -> int { val x = 1 }"), Ok(vec![Node::FunctionDeclaration(f)]));
}

#[test]
fn mutable_function_then_more() {
    let f = FunctionDeclaration {
        name: String::from("f"),
        params: vec![],
        return_type: ident("int"),
        mutable: true,
        body: vec![*bin(BinaryOperator::Multiply, 1, integer(2), integer(3))],
    };
    assert_eq!(
        parse("mut func f() -> int { 2 * 3 } 4 - 1"),
        Ok(vec![Node::FunctionDeclaration(f), *bin(BinaryOperator::Minus, 2, integer(4), integer(1))])
    );
}

#[test]
fn function_errors() {
    assert_eq!(parse("func f() { }"), Err(ParseError::MissingReturnType(0)));
    assert_eq!(parse("func f() -> { }"), Err(ParseError::MissingReturnType(0)));
    assert_eq!(parse("func f(a) -> int { }"), Err(ParseError::UnsupportedParameters(0)));
    assert_eq!(parse("func f() -> int { 1 + 2"), Err(ParseError::UnterminatedBlock(10)));
    assert_eq!(parse("func f() -> int }"), Err(ParseError::MissingBody(0)));
    assert_eq!(parse("func f() -> int x { }"), Err(ParseError::MissingBody(0)));
}

#[test]
fn left_operand_is_identifier_before_operator() {
    assert_eq!(
        parse("a.b % 4"),
        Ok(vec![*bin(BinaryOperator::Modulo, 1, ident("b"), integer(4))])
    );
}

#[test]
fn long_chains_parse() {
    let src = vec!["1"; 100].join(" + ");
    let nodes = parse(&src).unwrap();
    assert_eq!(nodes.len(), 1);
    let mut depth = 0;
    let mut n = &nodes[0];
    while let Node::BinaryExpression(b) = n {
        assert_eq!(*b.lhs, Node::Integer(1));
        depth += 1;
        n = &b.rhs;
    }
    assert_eq!(depth, 99);
    assert_eq!(*n, Node::Integer(1));
}

#[test]
fn nesting_is_bounded() {
    let src = vec!["1"; MAX_DEPTH + 10].join(" + ");
    assert!(matches!(parse(&src), Err(ParseError::NestingTooDeep(_))));
    let members = vec!["a"; MAX_DEPTH + 10].join(".");
    assert!(matches!(parse(&format!("val x = {}", members)), Err(ParseError::NestingTooDeep(_))));
}

#[test]
fn mixed_precedences_still_lean_right() {
    let inner = bin(BinaryOperator::Plus, 2, integer(2), integer(3));
    assert_eq!(parse("1 * 2 + 3"), Ok(vec![*bin(BinaryOperator::Multiply, 1, integer(1), inner)]));
}
