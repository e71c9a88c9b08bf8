//! Tokens: their classification, their place in the source, and the keyword table.
use vstd::prelude::*;
use vstd::utf8::encode_utf8;

use crate::ast::BinaryOperator;

verus! {

/// The bytes `start ..= end` of the source that a token was read from.
#[derive(Debug, Clone, Copy, PartialEq, Eq, Structural)]
pub struct Span {
    pub start: usize,
    pub end: usize,
}

impl Span {
    /// The span of `len` bytes starting at `start`; `end` is the last byte, inclusive.
    pub fn from(start: usize, len: usize) -> (r: Span)
        requires
            len >= 1,
            start + len - 1 <= usize::MAX,
        ensures
            r.start == start,
            r.end == start + len - 1,
    {
        Span { start, end: start + (len - 1) }
    }
}

/// The classification of a token.
#[derive(Debug, Clone, Copy, PartialEq, Eq, Structural)]
pub enum TokenKind {
    // Grouping
    LPar,
    RPar,
    LBrac,
    RBrac,
    LCurl,
    RCurl,
    // Arithmetic
    Plus,
    PlusEqual,
    Minus,
    MinusEqual,
    Star,
    Slash,
    SlashSlash,
    Caret,
    Modulo,
    // Symbols
    LArrow,
    RArrow,
    Hash,
    At,
    Ampersand,
    Colon,
    ColonColon,
    ColonEqual,
    Semicolon,
    Comma,
    Dot,
    // Comparison
    More,
    MoreEqual,
    Less,
    LessEqual,
    Equal,
    EqualEqual,
    Bang,
    BangEqual,
    // Keywords
    If,
    Else,
    Elif,
    For,
    While,
    New,
    Mut,
    Func,
    Val,
    Var,
    // Tokens that carry their text
    Literal,
    Number,
    Identifier,
    // End of the stream
    EndOfFile,
}

/// A classified token, where it stands in the source, and, for string literals,
/// numbers and identifiers, its text.
#[derive(Debug, Clone, PartialEq)]
pub struct Token {
    pub kind: TokenKind,
    pub span: Span,
    pub value: Option<String>,
}

/// The keyword that the bytes `w` spell, if any.
pub open spec fn keyword_of(w: Seq<u8>) -> Option<TokenKind> {
    if w == seq!['i' as u8, 'f' as u8] {
        Some(TokenKind::If)
    } else if w == seq!['e' as u8, 'l' as u8, 's' as u8, 'e' as u8] {
        Some(TokenKind::Else)
    } else if w == seq!['e' as u8, 'l' as u8, 'i' as u8, 'f' as u8] {
        Some(TokenKind::Elif)
    } else if w == seq!['f' as u8, 'o' as u8, 'r' as u8] {
        Some(TokenKind::For)
    } else if w == seq!['w' as u8, 'h' as u8, 'i' as u8, 'l' as u8, 'e' as u8] {
        Some(TokenKind::While)
    } else if w == seq!['n' as u8, 'e' as u8, 'w' as u8] {
        Some(TokenKind::New)
    } else if w == seq!['m' as u8, 'u' as u8, 't' as u8] {
        Some(TokenKind::Mut)
    } else if w == seq!['f' as u8, 'u' as u8, 'n' as u8, 'c' as u8] {
        Some(TokenKind::Func)
    } else if w == seq!['v' as u8, 'a' as u8, 'l' as u8] {
        Some(TokenKind::Val)
    } else if w == seq!['v' as u8, 'a' as u8, 'r' as u8] {
        Some(TokenKind::Var)
    } else {
        None
    }
}

/// Literals, numbers and identifiers: tokens that only a construct around them
/// can use, and that never start one at the top level.
pub open spec fn is_leaf(k: TokenKind) -> bool {
    k == TokenKind::Literal || k == TokenKind::Number || k == TokenKind::Identifier
}

/// The binary operator that a token kind stands for, if any.
pub open spec fn operator_of(k: TokenKind) -> Option<BinaryOperator> {
    match k {
        TokenKind::Plus => Some(BinaryOperator::Plus),
        TokenKind::Minus => Some(BinaryOperator::Minus),
        TokenKind::Star => Some(BinaryOperator::Multiply),
        TokenKind::Slash => Some(BinaryOperator::Divide),
        TokenKind::Modulo => Some(BinaryOperator::Modulo),
        TokenKind::Caret => Some(BinaryOperator::Exponent),
        _ => None,
    }
}

fn spells(w: &[u8], word: &[u8]) -> (r: bool)
    ensures
        r == (w@ == word@),
{
    if w.len() != word.len() {
        return false;
    }
    let mut i: usize = 0;
    while i < w.len()
        invariant
            w.len() == word.len(),
            0 <= i <= w.len(),
            w@.subrange(0, i as int) == word@.subrange(0, i as int),
        decreases w.len() - i,
    {
        if w[i] != word[i] {
            assert(w@[i as int] != word@[i as int]);
            return false;
        }
        assert(w@.subrange(0, i + 1) =~= w@.subrange(0, i as int).push(w@[i as int]));
        assert(word@.subrange(0, i + 1) =~= word@.subrange(0, i as int).push(word@[i as int]));
        i = i + 1;
    }
    assert(w@ =~= w@.subrange(0, w.len() as int));
    assert(word@ =~= word@.subrange(0, word.len() as int));
    true
}

/// The keyword that `src` spells, if any.
pub fn get_keyword(src: &String) -> (r: Option<TokenKind>)
    ensures
        r == keyword_of(encode_utf8(src@)),
{
    let w = src.as_str().as_bytes();
    if spells(w, &['i' as u8, 'f' as u8]) {
        Some(TokenKind::If)
    } else if spells(w, &['e' as u8, 'l' as u8, 's' as u8, 'e' as u8]) {
        Some(TokenKind::Else)
    } else if spells(w, &['e' as u8, 'l' as u8, 'i' as u8, 'f' as u8]) {
        Some(TokenKind::Elif)
    } else if spells(w, &['f' as u8, 'o' as u8, 'r' as u8]) {
        Some(TokenKind::For)
    } else if spells(w, &['w' as u8, 'h' as u8, 'i' as u8, 'l' as u8, 'e' as u8]) {
        Some(TokenKind::While)
    } else if spells(w, &['n' as u8, 'e' as u8, 'w' as u8]) {
        Some(TokenKind::New)
    } else if spells(w, &['m' as u8, 'u' as u8, 't' as u8]) {
        Some(TokenKind::Mut)
    } else if spells(w, &['f' as u8, 'u' as u8, 'n' as u8, 'c' as u8]) {
        Some(TokenKind::Func)
    } else if spells(w, &['v' as u8, 'a' as u8, 'l' as u8]) {
        Some(TokenKind::Val)
    } else if spells(w, &['v' as u8, 'a' as u8, 'r' as u8]) {
        Some(TokenKind::Var)
    } else {
        None
    }
}

impl TokenKind {
    /// The keyword that `src` spells, if any.
    pub fn get_keyword(src: &String) -> (r: Option<TokenKind>)
        ensures
            r == keyword_of(encode_utf8(src@)),
    {
        get_keyword(src)
    }

    /// Whether this kind is a literal, a number or an identifier.
    pub fn is_leaf_node(&self) -> (r: bool)
        ensures
            r == is_leaf(*self),
    {
        match self {
            TokenKind::Literal | TokenKind::Number | TokenKind::Identifier => true,
            _ => false,
        }
    }

    /// The binary operator that this kind stands for, if any.
    pub fn binary_operator(&self) -> (r: Option<BinaryOperator>)
        ensures
            r == operator_of(*self),
    {
        match self {
            TokenKind::Plus => Some(BinaryOperator::Plus),
            TokenKind::Minus => Some(BinaryOperator::Minus),
            TokenKind::Star => Some(BinaryOperator::Multiply),
            TokenKind::Slash => Some(BinaryOperator::Divide),
            TokenKind::Modulo => Some(BinaryOperator::Modulo),
            TokenKind::Caret => Some(BinaryOperator::Exponent),
            _ => None,
        }
    }
}

} // verus!
