//! The parser: recursive descent over a token sequence. Every sub-parse is
//! handed a token index and, where it produces a node, returns the index one
//! past the last token it used, so no cursor is shared between calls.
use vstd::prelude::*;

use crate::ast::{
    precedence_of, trees_of, Ast, BinaryExpression, FunctionDeclaration, Node, Tree,
    VariableDeclaration,
};
use crate::number::{literal_of, parse_number};
use crate::token::{is_leaf, operator_of, Token, TokenKind};

verus! {

/// Why a token sequence cannot be parsed; each carries a token index.
#[derive(Debug, Clone, Copy, PartialEq, Eq, Structural)]
pub enum ParseError {
    /// The binary operator at this index has no operand on one of its sides.
    MissingOperand(usize),
    /// The number at this index has malformed text.
    MalformedNumber(usize),
    /// The function declared at this index has no `->` and return type after its parameters.
    MissingReturnType(usize),
    /// The stream ends at this index inside a function body.
    UnterminatedBlock(usize),
    /// The expression at this index is nested deeper than `MAX_DEPTH`.
    NestingTooDeep(usize),
    /// The function declared at this index has no `{` after its return type.
    MissingBody(usize),
    /// The function declared at this index has parameters, which are not read yet.
    UnsupportedParameters(usize),
}

/// How deeply expressions, operator chains and function bodies may nest: each
/// level takes one unit of a sub-parse's `depth`, which keeps the recursion of
/// the parser bounded.
pub const MAX_DEPTH: usize = 256;

/// What a sub-parse at one index yields: a fatal error, no node, or a node and
/// the index one past its last token.
pub type Parsed = Result<Option<(Tree, int)>, ParseError>;

pub open spec fn is_kind(ts: Seq<Token>, k: int, kind: TokenKind) -> bool {
    0 <= k < ts.len() && ts[k].kind == kind
}

pub open spec fn is_operator_at(ts: Seq<Token>, k: int) -> bool {
    0 <= k < ts.len() && operator_of(ts[k].kind) is Some
}

/// The text that a token carries; empty where it carries none.
pub open spec fn lexeme(t: Token) -> Seq<char> {
    match t.value {
        Some(v) => v@,
        None => Seq::empty(),
    }
}

/// The number token at `k`.
pub open spec fn number_at(ts: Seq<Token>, k: int) -> Parsed {
    match literal_of(lexeme(ts[k])) {
        Some(t) => Ok(Some((t, k + 1))),
        None => Err(ParseError::MalformedNumber(k as usize)),
    }
}

/// The left operand of the operator at `k`, read at `k - 1`. An expression
/// there that is followed by an operator is a number or a bare identifier; an
/// operator there leaves the operator at `k` without an operand.
pub open spec fn operand_before(ts: Seq<Token>, k: int) -> Result<Option<Tree>, ParseError> {
    let kind = ts[k - 1].kind;
    if kind == TokenKind::Number {
        match number_at(ts, k - 1) {
            Ok(Some((t, _))) => Ok(Some(t)),
            Ok(None) => Ok(None),
            Err(e) => Err(e),
        }
    } else if kind == TokenKind::Identifier {
        Ok(Some(Tree::Identifier(lexeme(ts[k - 1]))))
    } else if operator_of(kind) is Some {
        Err(ParseError::MissingOperand(k as usize))
    } else {
        Ok(None)
    }
}

/// The expression that starts at token `k`, with `depth` levels of nesting
/// left to it and what it contains.
pub open spec fn expression(ts: Seq<Token>, k: int, depth: nat) -> Parsed
    decreases ts.len() - k, 1int,
{
    if !(0 <= k < ts.len()) {
        Ok(None)
    } else if depth == 0 {
        Err(ParseError::NestingTooDeep(k as usize))
    } else {
        let kind = ts[k].kind;
        if operator_of(kind) is Some {
            binary(ts, k, None, (depth - 1) as nat)
        } else if kind == TokenKind::Number {
            number_at(ts, k)
        } else if (kind == TokenKind::Val || kind == TokenKind::Var) && is_kind(
            ts,
            k + 1,
            TokenKind::Identifier,
        ) && (is_kind(ts, k + 2, TokenKind::ColonColon) || is_kind(ts, k + 2, TokenKind::Equal)) {
            declaration(ts, k, (depth - 1) as nat)
        } else if kind == TokenKind::Func && is_kind(ts, k + 1, TokenKind::Identifier) && is_kind(
            ts,
            k + 2,
            TokenKind::LPar,
        ) {
            function(ts, k, k + 1, (depth - 1) as nat)
        } else if kind == TokenKind::Mut && is_kind(ts, k + 1, TokenKind::Func) && is_kind(
            ts,
            k + 2,
            TokenKind::Identifier,
        ) && is_kind(ts, k + 3, TokenKind::LPar) {
            function(ts, k, k + 2, (depth - 1) as nat)
        } else if kind == TokenKind::Identifier {
            identifier(ts, k, (depth - 1) as nat)
        } else {
            Ok(None)
        }
    }
}

/// A binary expression at the operator `k`, with `lhs` as its left operand
/// where one is handed down. An operator right after the right operand
/// continues the chain to the right: `a + b + c` is `a + (b + c)`.
pub open spec fn binary(ts: Seq<Token>, k: int, lhs: Option<Tree>, depth: nat) -> Parsed
    decreases ts.len() - k, 0int,
{
    if !(0 <= k < ts.len()) {
        Ok(None)
    } else if depth == 0 {
        Err(ParseError::NestingTooDeep(k as usize))
    } else {
        let op = operator_of(ts[k].kind)->0;
        let left = match lhs {
            Some(l) => Ok(Some(l)),
            None => if k == 0 {
                Err(ParseError::MissingOperand(k as usize))
            } else {
                operand_before(ts, k)
            },
        };
        match left {
            Err(e) => Err(e),
            Ok(l) => if k + 1 >= ts.len() || ts[k + 1].kind == TokenKind::EndOfFile
                || is_operator_at(ts, k + 1) {
                Err(ParseError::MissingOperand(k as usize))
            } else {
                match expression(ts, k + 1, (depth - 1) as nat) {
                    Err(e) => Err(e),
                    Ok(None) => Ok(None),
                    Ok(Some((r, j))) => match l {
                        None => Ok(None),
                        Some(lt) => if k < j && is_operator_at(ts, j) {
                            match binary(ts, j, Some(r), (depth - 1) as nat) {
                                Err(e) => Err(e),
                                Ok(None) => Ok(None),
                                Ok(Some((inner, j2))) => Ok(
                                    Some(
                                        (
                                            Tree::Binary {
                                                op,
                                                prec: precedence_of(op),
                                                lhs: Box::new(lt),
                                                rhs: Box::new(inner),
                                            },
                                            j2,
                                        ),
                                    ),
                                ),
                            }
                        } else {
                            Ok(
                                Some(
                                    (
                                        Tree::Binary {
                                            op,
                                            prec: precedence_of(op),
                                            lhs: Box::new(lt),
                                            rhs: Box::new(r),
                                        },
                                        j,
                                    ),
                                ),
                            )
                        },
                    },
                }
            },
        }
    }
}

/// An identifier at `k`; followed by `.` or `:` and an expression, a member
/// access or invocation. Where no expression follows, the bare identifier.
pub open spec fn identifier(ts: Seq<Token>, k: int, depth: nat) -> Parsed
    decreases ts.len() - k, 0int,
{
    let id = Tree::Identifier(lexeme(ts[k]));
    if is_kind(ts, k + 1, TokenKind::Dot) || is_kind(ts, k + 1, TokenKind::Colon) {
        match expression(ts, k + 2, depth) {
            Err(e) => Err(e),
            Ok(None) => Ok(Some((id, k + 1))),
            Ok(Some((m, j))) => Ok(
                Some(
                    (
                        if is_kind(ts, k + 1, TokenKind::Dot) {
                            Tree::MemberAccess(Box::new(id), Box::new(m))
                        } else {
                            Tree::MemberInvocation(Box::new(id), Box::new(m))
                        },
                        j,
                    ),
                ),
            ),
        }
    } else {
        Ok(Some((id, k + 1)))
    }
}

/// `val`/`var` name `=` value, or `val`/`var` name `::` type `=` value, at `k`.
pub open spec fn declaration(ts: Seq<Token>, k: int, depth: nat) -> Parsed
    decreases ts.len() - k, 0int,
{
    let mutable = ts[k].kind == TokenKind::Var;
    let key = Tree::Identifier(lexeme(ts[k + 1]));
    if !(0 <= k && k + 3 <= ts.len()) {
        Ok(None)
    } else {
        match expression(ts, k + 3, depth) {
            Err(e) => Err(e),
            Ok(None) => Ok(None),
            Ok(Some((first, j))) => if is_kind(ts, k + 2, TokenKind::Equal) {
                Ok(
                    Some(
                        (
                            Tree::Variable {
                                key: Box::new(key),
                                value: Box::new(first),
                                mutable,
                                annotation: None,
                            },
                            j,
                        ),
                    ),
                )
            } else if k < j && is_kind(ts, j, TokenKind::Equal) {
                match expression(ts, j + 1, depth) {
                    Err(e) => Err(e),
                    Ok(None) => Ok(None),
                    Ok(Some((value, j2))) => Ok(
                        Some(
                            (
                                Tree::Variable {
                                    key: Box::new(key),
                                    value: Box::new(value),
                                    mutable,
                                    annotation: Some(Box::new(first)),
                                },
                                j2,
                            ),
                        ),
                    ),
                }
            } else {
                Ok(None)
            },
        }
    }
}

/// A function declaration that starts at `k` and is named at `name`:
/// `( )`, `->` and a return type, then `{` and a body up to its `}`.
pub open spec fn function(ts: Seq<Token>, k: int, name: int, depth: nat) -> Parsed
    decreases ts.len() - k, 0int,
{
    if !(0 <= k < name) {
        Ok(None)
    } else if !is_kind(ts, name + 2, TokenKind::RPar) {
        Err(ParseError::UnsupportedParameters(k as usize))
    } else if !is_kind(ts, name + 3, TokenKind::RArrow) {
        Err(ParseError::MissingReturnType(k as usize))
    } else {
        match expression(ts, name + 4, depth) {
            Err(e) => Err(e),
            Ok(None) => Err(ParseError::MissingReturnType(k as usize)),
            Ok(Some((return_type, j))) => if !(k < j && is_kind(ts, j, TokenKind::LCurl)) {
                Err(ParseError::MissingBody(k as usize))
            } else {
                match block(ts, j + 1, Seq::empty(), depth) {
                    Err(e) => Err(e),
                    Ok((body, j2)) => Ok(
                        Some(
                            (
                                Tree::Function {
                                    name: lexeme(ts[name]),
                                    params: Seq::empty(),
                                    return_type: Box::new(return_type),
                                    mutable: ts[k].kind == TokenKind::Mut,
                                    body,
                                },
                                j2,
                            ),
                        ),
                    ),
                }
            },
        }
    }
}

/// One statement of a sequence at `k`: a leaf token starts none.
pub open spec fn statement(ts: Seq<Token>, k: int, depth: nat) -> Parsed
    decreases ts.len() - k, 2int,
{
    if 0 <= k < ts.len() && is_leaf(ts[k].kind) {
        Ok(None)
    } else {
        expression(ts, k, depth)
    }
}

/// Where a sequence goes on after the statement at `k` has yielded `j`: at
/// `j`, and in any case at least one token further.
pub open spec fn advance(ts: Seq<Token>, k: int, j: int) -> int {
    if k < j <= ts.len() {
        j
    } else {
        k + 1
    }
}

/// The statements of a function body from `k` up to its `}`, after `acc`, and
/// the index after the `}`.
pub open spec fn block(ts: Seq<Token>, k: int, acc: Seq<Tree>, depth: nat) -> Result<
    (Seq<Tree>, int),
    ParseError,
>
    decreases ts.len() - k, 3int,
{
    if !(0 <= k < ts.len()) || ts[k].kind == TokenKind::EndOfFile {
        Err(ParseError::UnterminatedBlock(k as usize))
    } else if ts[k].kind == TokenKind::RCurl {
        Ok((acc, k + 1))
    } else {
        match statement(ts, k, depth) {
            Err(e) => Err(e),
            Ok(None) => block(ts, k + 1, acc, depth),
            Ok(Some((t, j))) => block(ts, advance(ts, k, j), acc.push(t), depth),
        }
    }
}

/// The top-level statements from `k` up to the end of the stream, after `acc`.
pub open spec fn program(ts: Seq<Token>, k: int, acc: Seq<Tree>) -> Result<Seq<Tree>, ParseError>
    decreases ts.len() - k, 3int,
{
    if !(0 <= k < ts.len()) || ts[k].kind == TokenKind::EndOfFile {
        Ok(acc)
    } else {
        match statement(ts, k, MAX_DEPTH as nat) {
            Err(e) => Err(e),
            Ok(None) => program(ts, k + 1, acc),
            Ok(Some((t, j))) => program(ts, advance(ts, k, j), acc.push(t)),
        }
    }
}

/// The syntax trees of a whole token sequence.
pub open spec fn parse_tokens(ts: Seq<Token>) -> Result<Seq<Tree>, ParseError> {
    program(ts, 0, Seq::empty())
}

/// The left operand of an operator is what the expression parser yields one
/// token to its left, wherever that token is not itself an operator.
pub proof fn lemma_left_operand_is_expression(ts: Seq<Token>, k: int, depth: nat)
    requires
        depth >= 1,
        1 <= k < ts.len(),
        is_operator_at(ts, k),
        !is_operator_at(ts, k - 1),
    ensures
        operand_before(ts, k) == match expression(ts, k - 1, depth) {
            Err(e) => Err(e),
            Ok(None) => Ok(None),
            Ok(Some((t, _))) => Ok(Some(t)),
        },
{
}

/// The literal that the number token at `j` stands for.
pub open spec fn number_tree(ts: Seq<Token>, j: int) -> Tree {
    literal_of(lexeme(ts[j]))->0
}

/// `l`, then the operators at `i`, `i + 2`, ... (`m` of them) each followed by
/// a number, grouped to the right: `l op (n op (n op n))`.
pub open spec fn right_chain(ts: Seq<Token>, l: Tree, i: int, m: nat) -> Tree
    decreases m,
{
    let op = operator_of(ts[i].kind)->0;
    let rhs = if m <= 1 {
        number_tree(ts, i + 1)
    } else {
        right_chain(ts, number_tree(ts, i + 1), i + 2, (m - 1) as nat)
    };
    Tree::Binary { op, prec: precedence_of(op), lhs: Box::new(l), rhs: Box::new(rhs) }
}

/// From `i` on, `m` operators each followed by a well-formed number, and no
/// operator after the last number.
pub open spec fn is_number_chain(ts: Seq<Token>, i: int, m: nat) -> bool {
    &&& 0 <= i
    &&& i + 2 * m <= ts.len()
    &&& forall|t: int|
        0 <= t < m ==> #[trigger] is_operator_at(ts, i + 2 * t) && ts[i + 2 * t + 1].kind
            == TokenKind::Number && literal_of(lexeme(ts[i + 2 * t + 1])) is Some
    &&& !is_operator_at(ts, i + 2 * m)
}

proof fn lemma_chain_with_left(ts: Seq<Token>, l: Tree, i: int, m: nat, depth: nat)
    requires
        m >= 1,
        is_number_chain(ts, i, m),
        depth > m,
    ensures
        binary(ts, i, Some(l), depth) == Ok::<Option<(Tree, int)>, ParseError>(
            Some((right_chain(ts, l, i, m), i + 2 * m)),
        ),
    decreases m,
{
    assert(is_operator_at(ts, i + 2 * 0));
    let r = number_tree(ts, i + 1);
    assert(expression(ts, i + 1, (depth - 1) as nat) == Ok::<Option<(Tree, int)>, ParseError>(
        Some((r, i + 2)),
    ));
    if m > 1 {
        assert forall|t: int| 0 <= t < m - 1 implies #[trigger] is_operator_at(ts, (i + 2) + 2 * t)
            && ts[(i + 2) + 2 * t + 1].kind == TokenKind::Number && literal_of(
            lexeme(ts[(i + 2) + 2 * t + 1]),
        ) is Some by {
            assert(is_operator_at(ts, i + 2 * (t + 1)));
            assert(i + 2 * (t + 1) == (i + 2) + 2 * t);
        }
        assert(is_operator_at(ts, i + 2 * 1));
        assert((i + 2) + 2 * ((m - 1) as nat) == i + 2 * m);
        assert(is_number_chain(ts, i + 2, (m - 1) as nat));
        lemma_chain_with_left(ts, r, i + 2, (m - 1) as nat, (depth - 1) as nat);
    }
}

/// A run of operators between numbers groups to the right, whatever the
/// operators and their precedences: at the first operator, `n0 op1 n1 op2 n2
/// ... opm nm` parses as `n0 op1 (n1 op2 (... (n(m-1) opm nm)))`, for chains
/// of any length within the nesting budget.
pub proof fn lemma_right_leaning_chain(ts: Seq<Token>, i: int, m: nat, depth: nat)
    requires
        m >= 1,
        i >= 1,
        ts[i - 1].kind == TokenKind::Number,
        literal_of(lexeme(ts[i - 1])) is Some,
        is_number_chain(ts, i, m),
        depth > m,
    ensures
        binary(ts, i, None, depth) == Ok::<Option<(Tree, int)>, ParseError>(
            Some((right_chain(ts, number_tree(ts, i - 1), i, m), i + 2 * m)),
        ),
{
    assert(is_operator_at(ts, i + 2 * 0));
    lemma_chain_with_left(ts, number_tree(ts, i - 1), i, m, depth);
}

/// A whole token sequence `n0 op1 n1 ... opm nm` and the end of the stream
/// parses as the one right-leaning expression of `lemma_right_leaning_chain`.
pub proof fn lemma_chain_program(ts: Seq<Token>, m: nat)
    requires
        1 <= m,
        m + 1 < MAX_DEPTH,
        ts.len() == 2 * m + 2,
        ts[0].kind == TokenKind::Number,
        literal_of(lexeme(ts[0])) is Some,
        is_number_chain(ts, 1, m),
        ts[2 * m + 1int].kind == TokenKind::EndOfFile,
    ensures
        parse_tokens(ts) == Ok::<Seq<Tree>, ParseError>(
            seq![right_chain(ts, number_tree(ts, 0), 1, m)],
        ),
{
    assert(is_operator_at(ts, 1int + 2 * 0int));
    lemma_right_leaning_chain(ts, 1, m, (MAX_DEPTH - 1) as nat);
    let t = right_chain(ts, number_tree(ts, 0), 1, m);
    assert(statement(ts, 0, MAX_DEPTH as nat) == Ok::<Option<(Tree, int)>, ParseError>(None));
    assert(statement(ts, 1, MAX_DEPTH as nat) == Ok::<Option<(Tree, int)>, ParseError>(
        Some((t, 2 * m + 1int)),
    ));
    assert(Seq::<Tree>::empty().push(t) == seq![t]);
    assert(program(ts, 2 * m + 1int, seq![t]) == Ok::<Seq<Tree>, ParseError>(seq![t]));
    assert(advance(ts, 1, 2 * m + 1int) == 2 * m + 1);
    assert(program(ts, 1, Seq::empty()) == program(ts, 2 * m + 1int, seq![t]));
    assert(program(ts, 0, Seq::empty()) == program(ts, 1, Seq::empty()));
}

/// Every binary expression in `t` stores the precedence that the table gives
/// its operator.
pub open spec fn precedences_hold(t: Tree) -> bool
    decreases t,
{
    match t {
        Tree::Binary { op, prec, lhs, rhs } => prec == precedence_of(op) && precedences_hold(*lhs)
            && precedences_hold(*rhs),
        Tree::Unary { rhs, .. } => precedences_hold(*rhs),
        Tree::MemberAccess(a, m) => precedences_hold(*a) && precedences_hold(*m),
        Tree::MemberInvocation(a, m) => precedences_hold(*a) && precedences_hold(*m),
        Tree::Function { params, return_type, body, .. } => precedences_hold(*return_type) && (
        forall|i: int| 0 <= i < params.len() ==> precedences_hold(#[trigger] params[i])) && (forall|
            i: int,
        |
            0 <= i < body.len() ==> precedences_hold(#[trigger] body[i])),
        Tree::Parameter { ident, annotation, .. } => precedences_hold(*ident) && precedences_hold(
            *annotation,
        ),
        Tree::Variable { key, value, annotation, .. } => precedences_hold(*key) && precedences_hold(
            *value,
        ) && (annotation matches Some(a) ==> precedences_hold(*a)),
        _ => true,
    }
}

pub open spec fn all_hold(s: Seq<Tree>) -> bool {
    forall|i: int| 0 <= i < s.len() ==> precedences_hold(#[trigger] s[i])
}

pub open spec fn holds_in(r: Parsed) -> bool {
    r matches Ok(Some((t, _))) ==> precedences_hold(t)
}

proof fn lemma_expression_holds(ts: Seq<Token>, k: int, depth: nat)
    ensures
        holds_in(expression(ts, k, depth)),
    decreases ts.len() - k, 1int,
{
    if 0 <= k < ts.len() && depth > 0 {
        let d = (depth - 1) as nat;
        let kind = ts[k].kind;
        if operator_of(kind) is Some {
            lemma_binary_holds(ts, k, None, d);
        } else if kind == TokenKind::Number {
        } else if (kind == TokenKind::Val || kind == TokenKind::Var) && is_kind(
            ts,
            k + 1,
            TokenKind::Identifier,
        ) && (is_kind(ts, k + 2, TokenKind::ColonColon) || is_kind(ts, k + 2, TokenKind::Equal)) {
            lemma_declaration_holds(ts, k, d);
        } else if kind == TokenKind::Func && is_kind(ts, k + 1, TokenKind::Identifier) && is_kind(
            ts,
            k + 2,
            TokenKind::LPar,
        ) {
            lemma_function_holds(ts, k, k + 1, d);
        } else if kind == TokenKind::Mut && is_kind(ts, k + 1, TokenKind::Func) && is_kind(
            ts,
            k + 2,
            TokenKind::Identifier,
        ) && is_kind(ts, k + 3, TokenKind::LPar) {
            lemma_function_holds(ts, k, k + 2, d);
        } else if kind == TokenKind::Identifier {
            lemma_identifier_holds(ts, k, d);
        }
    }
}

proof fn lemma_binary_holds(ts: Seq<Token>, k: int, lhs: Option<Tree>, depth: nat)
    requires
        lhs matches Some(l) ==> precedences_hold(l),
    ensures
        holds_in(binary(ts, k, lhs, depth)),
    decreases ts.len() - k, 0int,
{
    reveal_with_fuel(precedences_hold, 2);
    let d = (depth - 1) as nat;
    if 0 <= k < ts.len() && depth > 0 && !(k + 1 >= ts.len() || ts[k + 1].kind
        == TokenKind::EndOfFile
        || is_operator_at(ts, k + 1)) {
        lemma_expression_holds(ts, k + 1, d);
        if let Ok(Some((r, j))) = expression(ts, k + 1, d) {
            if k < j && is_operator_at(ts, j) {
                lemma_binary_holds(ts, j, Some(r), d);
            }
        }
    }
}

proof fn lemma_identifier_holds(ts: Seq<Token>, k: int, depth: nat)
    ensures
        holds_in(identifier(ts, k, depth)),
    decreases ts.len() - k, 0int,
{
    reveal_with_fuel(precedences_hold, 2);
    if is_kind(ts, k + 1, TokenKind::Dot) || is_kind(ts, k + 1, TokenKind::Colon) {
        lemma_expression_holds(ts, k + 2, depth);
    }
}

proof fn lemma_declaration_holds(ts: Seq<Token>, k: int, depth: nat)
    ensures
        holds_in(declaration(ts, k, depth)),
    decreases ts.len() - k, 0int,
{
    reveal_with_fuel(precedences_hold, 2);
    if 0 <= k && k + 3 <= ts.len() {
        lemma_expression_holds(ts, k + 3, depth);
        if let Ok(Some((_, j))) = expression(ts, k + 3, depth) {
            if k < j && is_kind(ts, j, TokenKind::Equal) {
                lemma_expression_holds(ts, j + 1, depth);
            }
        }
    }
}

proof fn lemma_function_holds(ts: Seq<Token>, k: int, name: int, depth: nat)
    ensures
        holds_in(function(ts, k, name, depth)),
    decreases ts.len() - k, 0int,
{
    if 0 <= k < name && is_kind(ts, name + 2, TokenKind::RPar) && is_kind(
        ts,
        name + 3,
        TokenKind::RArrow,
    ) {
        lemma_expression_holds(ts, name + 4, depth);
        if let Ok(Some((_, j))) = expression(ts, name + 4, depth) {
            if k < j && is_kind(ts, j, TokenKind::LCurl) {
                lemma_block_holds(ts, j + 1, Seq::empty(), depth);
            }
        }
    }
}

proof fn lemma_statement_holds(ts: Seq<Token>, k: int, depth: nat)
    ensures
        holds_in(statement(ts, k, depth)),
    decreases ts.len() - k, 2int,
{
    lemma_expression_holds(ts, k, depth);
}

proof fn lemma_block_holds(ts: Seq<Token>, k: int, acc: Seq<Tree>, depth: nat)
    requires
        all_hold(acc),
    ensures
        block(ts, k, acc, depth) matches Ok((body, _)) ==> all_hold(body),
    decreases ts.len() - k, 3int,
{
    if 0 <= k < ts.len() && ts[k].kind != TokenKind::EndOfFile && ts[k].kind != TokenKind::RCurl {
        lemma_statement_holds(ts, k, depth);
        match statement(ts, k, depth) {
            Err(_) => {},
            Ok(None) => lemma_block_holds(ts, k + 1, acc, depth),
            Ok(Some((t, j))) => lemma_block_holds(ts, advance(ts, k, j), acc.push(t), depth),
        }
    }
}

proof fn lemma_program_holds(ts: Seq<Token>, k: int, acc: Seq<Tree>)
    requires
        all_hold(acc),
    ensures
        program(ts, k, acc) matches Ok(nodes) ==> all_hold(nodes),
    decreases ts.len() - k, 3int,
{
    if 0 <= k < ts.len() && ts[k].kind != TokenKind::EndOfFile {
        lemma_statement_holds(ts, k, MAX_DEPTH as nat);
        match statement(ts, k, MAX_DEPTH as nat) {
            Err(_) => {},
            Ok(None) => lemma_program_holds(ts, k + 1, acc),
            Ok(Some((t, j))) => lemma_program_holds(ts, advance(ts, k, j), acc.push(t)),
        }
    }
}

/// Precedence table conformance: in everything that a parse produces, each
/// binary expression stores the table's precedence for its operator.
pub proof fn lemma_precedence_table(ts: Seq<Token>)
    ensures
        parse_tokens(ts) matches Ok(nodes) ==> all_hold(nodes),
{
    lemma_program_holds(ts, 0, Seq::empty());
}

/// `r` is what the spec result `s` describes: the same error, no node, or a
/// node whose tree and end index are those of `s`.
pub open spec fn agrees(r: Result<Option<(Node, usize)>, ParseError>, s: Parsed) -> bool {
    match r {
        Err(e) => s matches Err(f) && f == e,
        Ok(None) => s matches Ok(None),
        Ok(Some((n, j))) => s matches Ok(Some((t, i))) && t == n.tree() && i == j,
    }
}

pub open spec fn tree_of_option(n: Option<Node>) -> Option<Tree> {
    match n {
        Some(n) => Some(n.tree()),
        None => None,
    }
}

/// `r` ends past `k` and within the `len` tokens, where it holds a node.
pub open spec fn ends_within(
    r: Result<Option<(Node, usize)>, ParseError>,
    k: int,
    len: int,
) -> bool {
    r matches Ok(Some((_, j))) ==> k < j <= len
}

/// A parser over one token sequence.
pub struct Parser<'a> {
    tokens: &'a Vec<Token>,
}

impl<'a> Parser<'a> {
    /// The tokens being parsed.
    pub closed spec fn tokens(&self) -> Seq<Token> {
        self.tokens@
    }

    pub fn new(tokens: &'a Vec<Token>) -> (r: Parser<'a>)
        ensures
            r.tokens() == tokens@,
    {
        Parser { tokens }
    }

    /// Whether the token `d` places after `k` exists and has kind `kind`.
    fn kind_is(&self, k: usize, d: usize, kind: TokenKind) -> (r: bool)
        ensures
            r == is_kind(self.tokens(), k + d, kind),
    {
        d < self.tokens.len() && k < self.tokens.len() - d && self.tokens[k + d].kind == kind
    }

    fn lexeme_at(&self, k: usize) -> (r: String)
        requires
            k < self.tokens().len(),
        ensures
            r@ == lexeme(self.tokens()[k as int]),
    {
        match &self.tokens[k].value {
            Some(v) => v.clone(),
            None => String::new(),
        }
    }

    fn number_at(&self, k: usize) -> (r: Result<Option<(Node, usize)>, ParseError>)
        requires
            k < self.tokens().len(),
        ensures
            agrees(r, number_at(self.tokens(), k as int)),
            ends_within(r, k as int, self.tokens().len() as int),
    {
        let text = self.lexeme_at(k);
        assert(k < self.tokens.len());
        match parse_number(&text) {
            Some(n) => Ok(Some((n, k + 1))),
            None => Err(ParseError::MalformedNumber(k)),
        }
    }

    fn operand_before(&self, k: usize) -> (r: Result<Option<Node>, ParseError>)
        requires
            1 <= k < self.tokens().len(),
        ensures
            match r {
                Err(e) => operand_before(self.tokens(), k as int) matches Err(f) && f == e,
                Ok(n) => operand_before(self.tokens(), k as int) matches Ok(t) && t
                    == tree_of_option(n),
            },
    {
        let kind = self.tokens[k - 1].kind;
        if kind == TokenKind::Number {
            match self.number_at(k - 1) {
                Ok(Some((n, _))) => Ok(Some(n)),
                Ok(None) => Ok(None),
                Err(e) => Err(e),
            }
        } else if kind == TokenKind::Identifier {
            Ok(Some(Node::Identifier(self.lexeme_at(k - 1))))
        } else if kind.binary_operator().is_some() {
            Err(ParseError::MissingOperand(k))
        } else {
            Ok(None)
        }
    }

    fn expression(&self, k: usize, depth: usize) -> (r: Result<Option<(Node, usize)>, ParseError>)
        ensures
            agrees(r, expression(self.tokens(), k as int, depth as nat)),
            ends_within(r, k as int, self.tokens().len() as int),
        decreases self.tokens().len() - k, 1int,
    {
        if k >= self.tokens.len() {
            return Ok(None);
        }
        if depth == 0 {
            return Err(ParseError::NestingTooDeep(k));
        }
        let d = depth - 1;
        let kind = self.tokens[k].kind;
        if kind.binary_operator().is_some() {
            self.binary(k, None, d)
        } else if kind == TokenKind::Number {
            self.number_at(k)
        } else if (kind == TokenKind::Val || kind == TokenKind::Var) && self.kind_is(
            k,
            1,
            TokenKind::Identifier,
        ) && (self.kind_is(k, 2, TokenKind::ColonColon) || self.kind_is(k, 2, TokenKind::Equal)) {
            self.declaration(k, d)
        } else if kind == TokenKind::Func && self.kind_is(k, 1, TokenKind::Identifier)
            && self.kind_is(k, 2, TokenKind::LPar) {
            self.function(k, k + 1, d)
        } else if kind == TokenKind::Mut && self.kind_is(k, 1, TokenKind::Func) && self.kind_is(
            k,
            2,
            TokenKind::Identifier,
        ) && self.kind_is(k, 3, TokenKind::LPar) {
            self.function(k, k + 2, d)
        } else if kind == TokenKind::Identifier {
            self.identifier(k, d)
        } else {
            Ok(None)
        }
    }

    fn binary(&self, k: usize, lhs: Option<Node>, depth: usize) -> (r: Result<
        Option<(Node, usize)>,
        ParseError,
    >)
        requires
            k < self.tokens().len(),
            operator_of(self.tokens()[k as int].kind) is Some,
        ensures
            agrees(r, binary(self.tokens(), k as int, tree_of_option(lhs), depth as nat)),
            ends_within(r, k as int, self.tokens().len() as int),
        decreases self.tokens().len() - k, 0int,
    {
        if depth == 0 {
            return Err(ParseError::NestingTooDeep(k));
        }
        let d = depth - 1;
        let op = self.tokens[k].kind.binary_operator().unwrap();
        let prec = op.precedence();
        let left = match lhs {
            Some(l) => Some(l),
            None => {
                if k == 0 {
                    return Err(ParseError::MissingOperand(k));
                }
                match self.operand_before(k) {
                    Err(e) => {
                        return Err(e);
                    },
                    Ok(l) => l,
                }
            },
        };
        let n = self.tokens.len();
        if k + 1 >= n || self.tokens[k + 1].kind == TokenKind::EndOfFile
            || self.tokens[k + 1].kind.binary_operator().is_some() {
            return Err(ParseError::MissingOperand(k));
        }
        match self.expression(k + 1, d) {
            Err(e) => Err(e),
            Ok(None) => Ok(None),
            Ok(Some((rhs, j))) => match left {
                None => Ok(None),
                Some(lt) => {
                    if j < n && self.tokens[j].kind.binary_operator().is_some() {
                        match self.binary(j, Some(rhs), d) {
                            Err(e) => Err(e),
                            Ok(None) => Ok(None),
                            Ok(Some((inner, j2))) => Ok(
                                Some(
                                    (
                                        Node::BinaryExpression(
                                            BinaryExpression {
                                                lhs: Box::new(lt),
                                                rhs: Box::new(inner),
                                                op,
                                                prec,
                                            },
                                        ),
                                        j2,
                                    ),
                                ),
                            ),
                        }
                    } else {
                        Ok(
                            Some(
                                (
                                    Node::BinaryExpression(
                                        BinaryExpression {
                                            lhs: Box::new(lt),
                                            rhs: Box::new(rhs),
                                            op,
                                            prec,
                                        },
                                    ),
                                    j,
                                ),
                            ),
                        )
                    }
                },
            },
        }
    }

    fn identifier(&self, k: usize, depth: usize) -> (r: Result<Option<(Node, usize)>, ParseError>)
        requires
            k < self.tokens().len(),
        ensures
            agrees(r, identifier(self.tokens(), k as int, depth as nat)),
            ends_within(r, k as int, self.tokens().len() as int),
        decreases self.tokens().len() - k, 0int,
    {
        let name = self.lexeme_at(k);
        assert(k < self.tokens.len());
        let dot = self.kind_is(k, 1, TokenKind::Dot);
        if dot || self.kind_is(k, 1, TokenKind::Colon) {
            match self.expression(k + 2, depth) {
                Err(e) => Err(e),
                Ok(None) => Ok(Some((Node::Identifier(name), k + 1))),
                Ok(Some((m, j))) => {
                    let id = Box::new(Node::Identifier(name));
                    assert(id.tree() == Tree::Identifier(lexeme(self.tokens()[k as int])));
                    if dot {
                        Ok(Some((Node::MemberAccess(id, Box::new(m)), j)))
                    } else {
                        Ok(Some((Node::MemberInvocation(id, Box::new(m)), j)))
                    }
                },
            }
        } else {
            Ok(Some((Node::Identifier(name), k + 1)))
        }
    }

    fn declaration(&self, k: usize, depth: usize) -> (r: Result<Option<(Node, usize)>, ParseError>)
        requires
            k + 2 < self.tokens().len(),
        ensures
            agrees(r, declaration(self.tokens(), k as int, depth as nat)),
            ends_within(r, k as int, self.tokens().len() as int),
        decreases self.tokens().len() - k, 0int,
    {
        assert(k + 2 < self.tokens.len());
        let mutable = self.tokens[k].kind == TokenKind::Var;
        let key = Box::new(Node::Identifier(self.lexeme_at(k + 1)));
        assert(key.tree() == Tree::Identifier(lexeme(self.tokens()[k + 1])));
        match self.expression(k + 3, depth) {
            Err(e) => Err(e),
            Ok(None) => Ok(None),
            Ok(Some((first, j))) => {
                if self.tokens[k + 2].kind == TokenKind::Equal {
                    let d = VariableDeclaration {
                        key,
                        value: Box::new(first),
                        mutable,
                        annotation: None,
                    };
                    Ok(Some((Node::VariableDeclaration(d), j)))
                } else if j < self.tokens.len() && self.tokens[j].kind == TokenKind::Equal {
                    match self.expression(j + 1, depth) {
                        Err(e) => Err(e),
                        Ok(None) => Ok(None),
                        Ok(Some((value, j2))) => {
                            let d = VariableDeclaration {
                                key,
                                value: Box::new(value),
                                mutable,
                                annotation: Some(Box::new(first)),
                            };
                            Ok(Some((Node::VariableDeclaration(d), j2)))
                        },
                    }
                } else {
                    Ok(None)
                }
            },
        }
    }

    fn function(&self, k: usize, name: usize, depth: usize) -> (r: Result<
        Option<(Node, usize)>,
        ParseError,
    >)
        requires
            k < name,
            name + 1 < self.tokens().len(),
        ensures
            agrees(r, function(self.tokens(), k as int, name as int, depth as nat)),
            ends_within(r, k as int, self.tokens().len() as int),
        decreases self.tokens().len() - k, 0int,
    {
        assert(name + 1 < self.tokens.len());
        if !self.kind_is(name, 2, TokenKind::RPar) {
            return Err(ParseError::UnsupportedParameters(k));
        }
        if !self.kind_is(name, 3, TokenKind::RArrow) {
            return Err(ParseError::MissingReturnType(k));
        }
        match self.expression(name + 4, depth) {
            Err(e) => Err(e),
            Ok(None) => Err(ParseError::MissingReturnType(k)),
            Ok(Some((return_type, j))) => {
                if !(j < self.tokens.len() && self.tokens[j].kind == TokenKind::LCurl) {
                    return Err(ParseError::MissingBody(k));
                }
                match self.block(j + 1, depth) {
                Err(e) => Err(e),
                Ok((body, j2)) => {
                    let f = FunctionDeclaration {
                        name: self.lexeme_at(name),
                        params: Vec::new(),
                        return_type: Box::new(return_type),
                        mutable: self.tokens[k].kind == TokenKind::Mut,
                        body,
                    };
                    let node = Node::FunctionDeclaration(f);
                    proof {
                        let t = node.tree();
                        assert(t->params =~= Seq::<Tree>::empty());
                        assert(t->body =~= trees_of(f.body@));
                    }
                    Ok(Some((node, j2)))
                },
                }
            },
        }
    }

    fn statement(&self, k: usize, depth: usize) -> (r: Result<Option<(Node, usize)>, ParseError>)
        ensures
            agrees(r, statement(self.tokens(), k as int, depth as nat)),
            ends_within(r, k as int, self.tokens().len() as int),
        decreases self.tokens().len() - k, 2int,
    {
        if k < self.tokens.len() && self.tokens[k].kind.is_leaf_node() {
            Ok(None)
        } else {
            self.expression(k, depth)
        }
    }

    /// The statements of a body from `start` up to its `}`, and the index after the `}`.
    fn block(&self, start: usize, depth: usize) -> (r: Result<(Vec<Node>, usize), ParseError>)
        requires
            start <= self.tokens().len(),
        ensures
            match r {
                Ok((body, j)) => block(
                    self.tokens(),
                    start as int,
                    Seq::empty(),
                    depth as nat,
                ) == Ok::<
                    (Seq<Tree>, int),
                    ParseError,
                >((trees_of(body@), j as int)) && start < j <= self.tokens().len(),
                Err(e) => block(self.tokens(), start as int, Seq::empty(), depth as nat) == Err::<
                    (Seq<Tree>, int),
                    ParseError,
                >(e),
            },
        decreases self.tokens().len() - start, 3int,
    {
        let mut body: Vec<Node> = Vec::new();
        let mut k = start;
        assert(trees_of(body@) =~= Seq::<Tree>::empty());
        loop
            invariant
                start <= k <= self.tokens().len(),
                block(self.tokens(), start as int, Seq::empty(), depth as nat) == block(
                    self.tokens(),
                    k as int,
                    trees_of(body@),
                    depth as nat,
                ),
            decreases self.tokens().len() - k,
        {
            if k >= self.tokens.len() || self.tokens[k].kind == TokenKind::EndOfFile {
                return Err(ParseError::UnterminatedBlock(k));
            }
            if self.tokens[k].kind == TokenKind::RCurl {
                return Ok((body, k + 1));
            }
            match self.statement(k, depth) {
                Err(e) => {
                    return Err(e);
                },
                Ok(None) => {
                    k = k + 1;
                },
                Ok(Some((node, j))) => {
                    let ghost before = body@;
                    body.push(node);
                    assert(trees_of(body@) =~= trees_of(before).push(node.tree()));
                    k = j;
                },
            }
        }
    }

    /// The syntax tree of the whole token sequence, or the first fatal error
    /// (see `parse_tokens`).
    pub fn parse(&self) -> (r: Result<Ast, ParseError>)
        ensures
            r is Ok <==> parse_tokens(self.tokens()) is Ok,
            r matches Ok(ast) ==> trees_of(ast.nodes@) == parse_tokens(self.tokens())->Ok_0,
            r matches Err(e) ==> parse_tokens(self.tokens()) == Err::<Seq<Tree>, ParseError>(e),
    {
        let mut ast = Ast { nodes: Vec::new() };
        let mut k: usize = 0;
        assert(trees_of(ast.nodes@) =~= Seq::<Tree>::empty());
        loop
            invariant
                k <= self.tokens().len(),
                parse_tokens(self.tokens()) == program(
                    self.tokens(),
                    k as int,
                    trees_of(ast.nodes@),
                ),
            decreases self.tokens().len() - k,
        {
            if k >= self.tokens.len() || self.tokens[k].kind == TokenKind::EndOfFile {
                return Ok(ast);
            }
            match self.statement(k, MAX_DEPTH) {
                Err(e) => {
                    return Err(e);
                },
                Ok(None) => {
                    k = k + 1;
                },
                Ok(Some((node, j))) => {
                    let ghost before = ast.nodes@;
                    ast.add(node);
                    assert(trees_of(ast.nodes@) =~= trees_of(before).push(node.tree()));
                    k = j;
                },
            }
        }
    }
}

} // verus!
