//! The syntax tree, and the mathematical model that contracts speak of.
use vstd::prelude::*;

verus! {

/// Binary operators.
#[derive(Debug, Clone, Copy, PartialEq, Eq, Structural)]
pub enum BinaryOperator {
    Plus,
    Minus,
    Multiply,
    Divide,
    Modulo,
    Exponent,
}

/// The fixed precedence table: a lower number binds tighter.
pub open spec fn precedence_of(op: BinaryOperator) -> u8 {
    match op {
        BinaryOperator::Exponent => 0,
        BinaryOperator::Multiply | BinaryOperator::Divide | BinaryOperator::Modulo => 1,
        BinaryOperator::Plus | BinaryOperator::Minus => 2,
    }
}

impl BinaryOperator {
    /// This operator's entry in the precedence table.
    pub fn precedence(&self) -> (r: u8)
        ensures
            r == precedence_of(*self),
    {
        match self {
            BinaryOperator::Plus => 2,
            BinaryOperator::Minus => 2,
            BinaryOperator::Multiply => 1,
            BinaryOperator::Divide => 1,
            BinaryOperator::Modulo => 1,
            BinaryOperator::Exponent => 0,
        }
    }
}

/// Unary operators.
#[derive(Debug, Clone, Copy, PartialEq, Eq, Structural)]
pub enum UnaryOperator {
    /// `-x`
    Negator,
    /// `#x`: the length of an array-like value
    LengthOf,
    /// `!x`
    LogicalNot,
    /// `&x`
    AddressOf,
    /// `*x`
    Dereference,
}

/// A node of the syntax tree. Every child is owned by its parent.
#[derive(Debug, PartialEq)]
pub enum Node {
    BinaryExpression(BinaryExpression),
    UnaryExpression(UnaryExpression),
    Integer(i32),
    /// A decimal literal, kept as its text (digits around one `.`).
    Float(String),
    Identifier(String),
    /// `object.member`
    MemberAccess(Box<Node>, Box<Node>),
    /// `object:method`
    MemberInvocation(Box<Node>, Box<Node>),
    FunctionDeclaration(FunctionDeclaration),
    Parameter(Parameter),
    VariableDeclaration(VariableDeclaration),
}

#[derive(Debug, PartialEq)]
pub struct BinaryExpression {
    pub lhs: Box<Node>,
    pub rhs: Box<Node>,
    pub op: BinaryOperator,
    pub prec: u8,
}

#[derive(Debug, PartialEq)]
pub struct UnaryExpression {
    pub rhs: Box<Node>,
    pub op: UnaryOperator,
}

#[derive(Debug, PartialEq)]
pub struct VariableDeclaration {
    pub key: Box<Node>,
    pub value: Box<Node>,
    pub mutable: bool,
    pub annotation: Option<Box<Node>>,
}

#[derive(Debug, PartialEq)]
pub struct FunctionDeclaration {
    pub name: String,
    pub params: Vec<Node>,
    pub return_type: Box<Node>,
    pub mutable: bool,
    pub body: Vec<Node>,
}

#[derive(Debug, PartialEq)]
pub struct Parameter {
    pub ident: Box<Node>,
    pub annotation: Box<Node>,
    pub mutable: bool,
}

/// The top-level list of nodes that a parse produces.
#[derive(Debug, PartialEq)]
pub struct Ast {
    pub nodes: Vec<Node>,
}

impl Ast {
    /// Appends a node at the end of the list.
    pub fn add(&mut self, node: Node)
        ensures
            final(self).nodes@ == old(self).nodes@.push(node),
    {
        self.nodes.push(node);
    }
}

/// The mathematical value of a syntax tree: text as character sequences, lists as sequences.
#[allow(inconsistent_fields)]
pub enum Tree {
    Binary { op: BinaryOperator, prec: u8, lhs: Box<Tree>, rhs: Box<Tree> },
    Unary { op: UnaryOperator, rhs: Box<Tree> },
    Integer(i32),
    Float(Seq<char>),
    Identifier(Seq<char>),
    MemberAccess(Box<Tree>, Box<Tree>),
    MemberInvocation(Box<Tree>, Box<Tree>),
    Function {
        name: Seq<char>,
        params: Seq<Tree>,
        return_type: Box<Tree>,
        mutable: bool,
        body: Seq<Tree>,
    },
    Parameter { ident: Box<Tree>, annotation: Box<Tree>, mutable: bool },
    Variable { key: Box<Tree>, value: Box<Tree>, mutable: bool, annotation: Option<Box<Tree>> },
}

/// The trees of a list of nodes.
pub open spec fn trees_of(v: Seq<Node>) -> Seq<Tree>
    decreases v,
{
    Seq::new(v.len(), |i: int| if 0 <= i < v.len() { v[i].tree() } else { Tree::Integer(0) })
}

impl Node {
    /// The tree that this node stands for.
    pub open spec fn tree(&self) -> Tree
        decreases self,
    {
        match self {
            Node::BinaryExpression(b) => Tree::Binary {
                op: b.op,
                prec: b.prec,
                lhs: Box::new(b.lhs.tree()),
                rhs: Box::new(b.rhs.tree()),
            },
            Node::UnaryExpression(u) => Tree::Unary { op: u.op, rhs: Box::new(u.rhs.tree()) },
            Node::Integer(v) => Tree::Integer(*v),
            Node::Float(t) => Tree::Float(t@),
            Node::Identifier(t) => Tree::Identifier(t@),
            Node::MemberAccess(a, b) => Tree::MemberAccess(Box::new(a.tree()), Box::new(b.tree())),
            Node::MemberInvocation(a, b) => Tree::MemberInvocation(
                Box::new(a.tree()),
                Box::new(b.tree()),
            ),
            Node::FunctionDeclaration(f) => Tree::Function {
                name: f.name@,
                params: Seq::new(
                    f.params.len() as nat,
                    |i: int|
                        if 0 <= i < f.params.len() {
                            f.params[i].tree()
                        } else {
                            Tree::Integer(0)
                        },
                ),
                return_type: Box::new(f.return_type.tree()),
                mutable: f.mutable,
                body: Seq::new(
                    f.body.len() as nat,
                    |i: int|
                        if 0 <= i < f.body.len() {
                            f.body[i].tree()
                        } else {
                            Tree::Integer(0)
                        },
                ),
            },
            Node::Parameter(p) => Tree::Parameter {
                ident: Box::new(p.ident.tree()),
                annotation: Box::new(p.annotation.tree()),
                mutable: p.mutable,
            },
            Node::VariableDeclaration(d) => Tree::Variable {
                key: Box::new(d.key.tree()),
                value: Box::new(d.value.tree()),
                mutable: d.mutable,
                annotation: match &d.annotation {
                    Some(a) => Some(Box::new(a.tree())),
                    None => None,
                },
            },
        }
    }
}

} // verus!
