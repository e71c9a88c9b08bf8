//! The tokenizer: one forward scan over the source bytes.
use vstd::prelude::*;
use vstd::string::StringSliceAdditionalSpecFns;
use vstd::utf8::*;

use crate::ast::Tree;
use crate::number::{
    all_digits, digits_value, has_dot, is_decimal_text, lemma_no_separators, literal_of,
};
use crate::token::{get_keyword, keyword_of, Span, Token, TokenKind};

verus! {

broadcast use {vstd::utf8::group_utf8_lib, vstd::string::group_string_axioms};

/// Why a source text cannot be tokenized; each carries the byte offset where it arose.
#[derive(Debug, Clone, Copy, PartialEq, Eq, Structural)]
pub enum LexError {
    /// A `"` at this offset opens a string that the input never closes.
    UnterminatedString(usize),
    /// The byte at this offset starts no token.
    UnrecognizedByte(usize),
}

pub open spec fn is_space(c: u8) -> bool {
    c == ' ' as u8 || c == '\t' as u8 || c == '\n' as u8 || c == '\r' as u8
}

pub open spec fn is_alpha(c: u8) -> bool {
    ('a' as u8 <= c <= 'z' as u8) || ('A' as u8 <= c <= 'Z' as u8)
}

pub open spec fn is_digit(c: u8) -> bool {
    '0' as u8 <= c <= '9' as u8
}

pub open spec fn is_ident_start(c: u8) -> bool {
    is_alpha(c) || c == '_' as u8
}

pub open spec fn is_ident_char(c: u8) -> bool {
    is_alpha(c) || is_digit(c) || c == '_' as u8
}

/// Digits and `_` separators: the bytes that always continue a number.
pub open spec fn is_number_char(c: u8) -> bool {
    is_digit(c) || c == '_' as u8
}

/// The operators of two bytes, matched before any one-byte prefix of theirs.
pub open spec fn pair_kind(a: u8, c: u8) -> Option<TokenKind> {
    if a == '+' as u8 && c == '=' as u8 {
        Some(TokenKind::PlusEqual)
    } else if a == '-' as u8 && c == '=' as u8 {
        Some(TokenKind::MinusEqual)
    } else if a == '-' as u8 && c == '>' as u8 {
        Some(TokenKind::RArrow)
    } else if a == '/' as u8 && c == '/' as u8 {
        Some(TokenKind::SlashSlash)
    } else if a == '<' as u8 && c == '-' as u8 {
        Some(TokenKind::LArrow)
    } else if a == ':' as u8 && c == ':' as u8 {
        Some(TokenKind::ColonColon)
    } else if a == ':' as u8 && c == '=' as u8 {
        Some(TokenKind::ColonEqual)
    } else if a == '<' as u8 && c == '=' as u8 {
        Some(TokenKind::LessEqual)
    } else if a == '>' as u8 && c == '=' as u8 {
        Some(TokenKind::MoreEqual)
    } else if a == '=' as u8 && c == '=' as u8 {
        Some(TokenKind::EqualEqual)
    } else if a == '!' as u8 && c == '=' as u8 {
        Some(TokenKind::BangEqual)
    } else {
        None
    }
}

/// The tokens of one byte.
pub open spec fn single_kind(a: u8) -> Option<TokenKind> {
    if a == '<' as u8 {
        Some(TokenKind::Less)
    } else if a == '>' as u8 {
        Some(TokenKind::More)
    } else if a == '!' as u8 {
        Some(TokenKind::Bang)
    } else if a == '=' as u8 {
        Some(TokenKind::Equal)
    } else if a == '(' as u8 {
        Some(TokenKind::LPar)
    } else if a == ')' as u8 {
        Some(TokenKind::RPar)
    } else if a == '{' as u8 {
        Some(TokenKind::LCurl)
    } else if a == '}' as u8 {
        Some(TokenKind::RCurl)
    } else if a == '[' as u8 {
        Some(TokenKind::LBrac)
    } else if a == ']' as u8 {
        Some(TokenKind::RBrac)
    } else if a == '+' as u8 {
        Some(TokenKind::Plus)
    } else if a == '-' as u8 {
        Some(TokenKind::Minus)
    } else if a == '/' as u8 {
        Some(TokenKind::Slash)
    } else if a == '*' as u8 {
        Some(TokenKind::Star)
    } else if a == '^' as u8 {
        Some(TokenKind::Caret)
    } else if a == '%' as u8 {
        Some(TokenKind::Modulo)
    } else if a == ',' as u8 {
        Some(TokenKind::Comma)
    } else if a == '.' as u8 {
        Some(TokenKind::Dot)
    } else if a == ':' as u8 {
        Some(TokenKind::Colon)
    } else if a == ';' as u8 {
        Some(TokenKind::Semicolon)
    } else if a == '@' as u8 {
        Some(TokenKind::At)
    } else if a == '#' as u8 {
        Some(TokenKind::Hash)
    } else if a == '&' as u8 {
        Some(TokenKind::Ampersand)
    } else {
        None
    }
}

/// The first offset at or after `i` whose byte does not continue an identifier.
pub open spec fn ident_end(b: Seq<u8>, i: int) -> int
    decreases b.len() - i,
{
    if 0 <= i < b.len() && is_ident_char(b[i]) {
        ident_end(b, i + 1)
    } else {
        i
    }
}

/// The first offset at or after `i` whose byte does not continue a number:
/// digits and `_` continue it, and one `.` does where the run holds none yet
/// (`dotted`), so a second `.` ends it.
pub open spec fn number_end(b: Seq<u8>, i: int, dotted: bool) -> int
    decreases b.len() - i,
{
    if 0 <= i < b.len() && is_number_char(b[i]) {
        number_end(b, i + 1, dotted)
    } else if 0 <= i < b.len() && b[i] == '.' as u8 && !dotted {
        number_end(b, i + 1, true)
    } else {
        i
    }
}

/// The offset of the first `"` at or after `i`, if any.
pub open spec fn closing_quote(b: Seq<u8>, i: int) -> Option<int>
    decreases b.len() - i,
{
    if 0 <= i < b.len() {
        if b[i] == '"' as u8 {
            Some(i)
        } else {
            closing_quote(b, i + 1)
        }
    } else {
        None
    }
}

/// A token as the scan sees it: its kind, the `len` bytes from `start` that it
/// covers, and the range `text.0 .. text.1` of its text, where it keeps one.
pub struct Lexeme {
    pub kind: TokenKind,
    pub start: int,
    pub len: int,
    pub text: Option<(int, int)>,
}

/// What the scan does at one offset.
pub enum Step {
    Skip,
    Emit(Lexeme),
    Fail(LexError),
}

/// The step at offset `i`: whitespace is skipped, two-byte operators win over
/// their one-byte prefixes, then strings, numbers and words are read whole.
pub open spec fn step(b: Seq<u8>, i: int) -> Step {
    let c = b[i];
    if is_space(c) {
        Step::Skip
    } else if i + 1 < b.len() && pair_kind(c, b[i + 1]) is Some {
        Step::Emit(Lexeme { kind: pair_kind(c, b[i + 1])->0, start: i, len: 2, text: None })
    } else if single_kind(c) is Some {
        Step::Emit(Lexeme { kind: single_kind(c)->0, start: i, len: 1, text: None })
    } else if c == '"' as u8 {
        match closing_quote(b, i + 1) {
            Some(j) => Step::Emit(
                Lexeme {
                    kind: TokenKind::Literal,
                    start: i,
                    len: j - i + 1,
                    text: Some((i + 1, j)),
                },
            ),
            None => Step::Fail(LexError::UnterminatedString(i as usize)),
        }
    } else if is_digit(c) {
        let j = number_end(b, i + 1, false);
        Step::Emit(Lexeme { kind: TokenKind::Number, start: i, len: j - i, text: Some((i, j)) })
    } else if is_ident_start(c) {
        let j = ident_end(b, i + 1);
        match keyword_of(b.subrange(i, j)) {
            Some(k) => Step::Emit(Lexeme { kind: k, start: i, len: j - i, text: None }),
            None => Step::Emit(
                Lexeme { kind: TokenKind::Identifier, start: i, len: j - i, text: Some((i, j)) },
            ),
        }
    } else {
        Step::Fail(LexError::UnrecognizedByte(i as usize))
    }
}

/// The end-of-stream token at offset `i`.
pub open spec fn end_lexeme(i: int) -> Lexeme {
    Lexeme { kind: TokenKind::EndOfFile, start: i, len: 1, text: None }
}

/// The tokens of `b` from offset `i` on, closed by the end-of-stream token, or
/// the first error.
pub open spec fn lex_from(b: Seq<u8>, i: int) -> Result<Seq<Lexeme>, LexError>
    decreases b.len() - i,
    via lex_from_decreases
{
    if 0 <= i < b.len() {
        match step(b, i) {
            Step::Skip => lex_from(b, i + 1),
            Step::Emit(l) => match lex_from(b, l.start + l.len) {
                Ok(rest) => Ok(seq![l] + rest),
                Err(e) => Err(e),
            },
            Step::Fail(e) => Err(e),
        }
    } else {
        Ok(seq![end_lexeme(b.len() as int)])
    }
}

/// The tokens of the whole source `b`.
pub open spec fn lex(b: Seq<u8>) -> Result<Seq<Lexeme>, LexError> {
    lex_from(b, 0)
}

proof fn lemma_ident_end(b: Seq<u8>, i: int)
    requires
        0 <= i <= b.len(),
    ensures
        i <= ident_end(b, i) <= b.len(),
    decreases b.len() - i,
{
    if i < b.len() && is_ident_char(b[i]) {
        lemma_ident_end(b, i + 1);
    }
}

proof fn lemma_number_end(b: Seq<u8>, i: int, dotted: bool)
    requires
        0 <= i <= b.len(),
    ensures
        i <= number_end(b, i, dotted) <= b.len(),
    decreases b.len() - i,
{
    if i < b.len() && is_number_char(b[i]) {
        lemma_number_end(b, i + 1, dotted);
    } else if i < b.len() && b[i] == '.' as u8 && !dotted {
        lemma_number_end(b, i + 1, true);
    }
}

proof fn lemma_closing_quote(b: Seq<u8>, i: int)
    requires
        0 <= i,
    ensures
        closing_quote(b, i) matches Some(j) ==> i <= j < b.len() && b[j] == '"' as u8,
    decreases b.len() - i,
{
    if 0 <= i < b.len() && b[i] != '"' as u8 {
        lemma_closing_quote(b, i + 1);
    }
}

/// Every token that a step emits starts there and covers at least one byte of `b`.
proof fn lemma_step_bounds(b: Seq<u8>, i: int)
    requires
        0 <= i < b.len(),
    ensures
        step(b, i) matches Step::Emit(l) ==> l.start == i && 1 <= l.len && i + l.len <= b.len(),
{
    lemma_number_end(b, i + 1, false);
    lemma_ident_end(b, i + 1);
    lemma_closing_quote(b, i + 1);
}

#[via_fn]
proof fn lex_from_decreases(b: Seq<u8>, i: int) {
    if 0 <= i < b.len() {
        lemma_step_bounds(b, i);
    }
}

/// `t` is the token that the lexeme `l` of the source bytes `b` describes.
pub open spec fn token_matches(t: Token, l: Lexeme, b: Seq<u8>) -> bool {
    &&& t.kind == l.kind
    &&& t.span.start == l.start
    &&& t.span.end == l.start + l.len - 1
    &&& match l.text {
        None => t.value is None,
        Some((s, e)) => t.value matches Some(v) && encode_utf8(v@) == b.subrange(s, e),
    }
}

/// Each token of `ts` is the one that the lexeme in the same place of `ls` describes.
pub open spec fn tokens_match(ts: Seq<Token>, ls: Seq<Lexeme>, b: Seq<u8>) -> bool {
    &&& ts.len() == ls.len()
    &&& forall|i: int| 0 <= i < ts.len() ==> token_matches(#[trigger] ts[i], ls[i], b)
}

/// `seen` followed by what `r` holds, or the error of `r`.
pub open spec fn prepend(seen: Seq<Lexeme>, r: Result<Seq<Lexeme>, LexError>) -> Result<
    Seq<Lexeme>,
    LexError,
> {
    match r {
        Ok(rest) => Ok(seen + rest),
        Err(e) => Err(e),
    }
}

/// In valid UTF-8, a character starts right after every ASCII byte that starts one.
proof fn lemma_boundary_after_ascii(bytes: Seq<u8>, k: int)
    requires
        valid_utf8(bytes),
        0 <= k < bytes.len(),
        bytes[k] <= 0x7f,
        is_char_boundary(bytes, k),
    ensures
        is_char_boundary(bytes, k + 1),
    decreases bytes.len(),
{
    let l = length_of_first_scalar(bytes);
    let tail = pop_first_scalar(bytes);
    assert(valid_first_scalar(bytes) && valid_utf8(tail));
    assert(1 <= l <= 4 && l <= bytes.len());
    assert(tail.len() == bytes.len() - l);
    if k == 0 {
        assert(l == 1);
        assert(is_char_boundary(tail, 0));
    } else {
        assert(is_char_boundary(tail, k - l));
        assert(tail[k - l] == bytes[k]);
        lemma_boundary_after_ascii(tail, k - l);
    }
}

/// In valid UTF-8, an ASCII byte starts a character, and so does the byte after it.
pub(crate) proof fn lemma_ascii_boundary(bytes: Seq<u8>, k: int)
    requires
        valid_utf8(bytes),
        0 <= k <= bytes.len(),
        k == 0 || k == bytes.len() || bytes[k] <= 0x7f || bytes[k - 1] <= 0x7f,
    ensures
        is_char_boundary(bytes, k),
{
    is_char_boundary_start_end_of_seq(bytes);
    if 0 < k < bytes.len() {
        if bytes[k] <= 0x7f {
            is_char_boundary_iff_not_is_continuation_byte(bytes, k);
        } else {
            is_char_boundary_iff_not_is_continuation_byte(bytes, k - 1);
            lemma_boundary_after_ascii(bytes, k - 1);
        }
    }
}

/// The text of the bytes `start .. end` of `src`.
pub(crate) fn slice_text(src: &str, start: usize, end: usize) -> (r: String)
    requires
        start <= end <= src.spec_bytes().len(),
        is_char_boundary(src.spec_bytes(), start as int),
        is_char_boundary(src.spec_bytes(), end as int),
    ensures
        encode_utf8(r@) == src.spec_bytes().subrange(start as int, end as int),
{
    let ghost bytes = src.spec_bytes();
    let (head, _) = src.split_at(end);
    proof {
        let hb = head.spec_bytes();
        assert(valid_utf8(bytes.subrange(0, end as int)));
        is_char_boundary_start_end_of_seq(hb);
        if 0 < start < end {
            is_char_boundary_iff_not_is_continuation_byte(bytes, start as int);
            is_char_boundary_iff_not_is_continuation_byte(hb, start as int);
        }
    }
    let (_, mid) = head.split_at(start);
    assert(mid.spec_bytes() =~= bytes.subrange(start as int, end as int));
    mid.to_owned()
}

fn pair_kind_of(a: u8, c: u8) -> (r: Option<TokenKind>)
    ensures
        r == pair_kind(a, c),
{
    if a == '+' as u8 && c == '=' as u8 {
        Some(TokenKind::PlusEqual)
    } else if a == '-' as u8 && c == '=' as u8 {
        Some(TokenKind::MinusEqual)
    } else if a == '-' as u8 && c == '>' as u8 {
        Some(TokenKind::RArrow)
    } else if a == '/' as u8 && c == '/' as u8 {
        Some(TokenKind::SlashSlash)
    } else if a == '<' as u8 && c == '-' as u8 {
        Some(TokenKind::LArrow)
    } else if a == ':' as u8 && c == ':' as u8 {
        Some(TokenKind::ColonColon)
    } else if a == ':' as u8 && c == '=' as u8 {
        Some(TokenKind::ColonEqual)
    } else if a == '<' as u8 && c == '=' as u8 {
        Some(TokenKind::LessEqual)
    } else if a == '>' as u8 && c == '=' as u8 {
        Some(TokenKind::MoreEqual)
    } else if a == '=' as u8 && c == '=' as u8 {
        Some(TokenKind::EqualEqual)
    } else if a == '!' as u8 && c == '=' as u8 {
        Some(TokenKind::BangEqual)
    } else {
        None
    }
}

fn single_kind_of(a: u8) -> (r: Option<TokenKind>)
    ensures
        r == single_kind(a),
{
    if a == '<' as u8 {
        Some(TokenKind::Less)
    } else if a == '>' as u8 {
        Some(TokenKind::More)
    } else if a == '!' as u8 {
        Some(TokenKind::Bang)
    } else if a == '=' as u8 {
        Some(TokenKind::Equal)
    } else if a == '(' as u8 {
        Some(TokenKind::LPar)
    } else if a == ')' as u8 {
        Some(TokenKind::RPar)
    } else if a == '{' as u8 {
        Some(TokenKind::LCurl)
    } else if a == '}' as u8 {
        Some(TokenKind::RCurl)
    } else if a == '[' as u8 {
        Some(TokenKind::LBrac)
    } else if a == ']' as u8 {
        Some(TokenKind::RBrac)
    } else if a == '+' as u8 {
        Some(TokenKind::Plus)
    } else if a == '-' as u8 {
        Some(TokenKind::Minus)
    } else if a == '/' as u8 {
        Some(TokenKind::Slash)
    } else if a == '*' as u8 {
        Some(TokenKind::Star)
    } else if a == '^' as u8 {
        Some(TokenKind::Caret)
    } else if a == '%' as u8 {
        Some(TokenKind::Modulo)
    } else if a == ',' as u8 {
        Some(TokenKind::Comma)
    } else if a == '.' as u8 {
        Some(TokenKind::Dot)
    } else if a == ':' as u8 {
        Some(TokenKind::Colon)
    } else if a == ';' as u8 {
        Some(TokenKind::Semicolon)
    } else if a == '@' as u8 {
        Some(TokenKind::At)
    } else if a == '#' as u8 {
        Some(TokenKind::Hash)
    } else if a == '&' as u8 {
        Some(TokenKind::Ampersand)
    } else {
        None
    }
}

fn is_digit_byte(c: u8) -> (r: bool)
    ensures
        r == is_digit(c),
{
    '0' as u8 <= c && c <= '9' as u8
}

fn is_alpha_byte(c: u8) -> (r: bool)
    ensures
        r == is_alpha(c),
{
    ('a' as u8 <= c && c <= 'z' as u8) || ('A' as u8 <= c && c <= 'Z' as u8)
}

/// Where the identifier bytes from `i` end.
fn take_ident(b: &[u8], i: usize) -> (r: usize)
    requires
        i <= b@.len(),
    ensures
        r == ident_end(b@, i as int),
        i <= r <= b@.len(),
        forall|k: int| i <= k < r ==> is_ident_char(#[trigger] b@[k]),
{
    let mut j = i;
    while j < b.len() && (is_alpha_byte(b[j]) || is_digit_byte(b[j]) || b[j] == '_' as u8)
        invariant
            i <= j <= b@.len(),
            ident_end(b@, j as int) == ident_end(b@, i as int),
            forall|k: int| i <= k < j ==> is_ident_char(#[trigger] b@[k]),
        decreases b.len() - j,
    {
        j = j + 1;
    }
    j
}

/// Where the number bytes from `i` end, with at most one `.` among them.
fn take_number(b: &[u8], i: usize) -> (r: usize)
    requires
        i <= b@.len(),
    ensures
        r == number_end(b@, i as int, false),
        i <= r <= b@.len(),
        forall|k: int| i <= k < r ==> b@[k] <= 0x7f,
{
    let mut j = i;
    let mut dotted = false;
    while j < b.len() && (is_digit_byte(b[j]) || b[j] == '_' as u8 || (b[j] == '.' as u8
        && !dotted))
        invariant
            i <= j <= b@.len(),
            number_end(b@, j as int, dotted) == number_end(b@, i as int, false),
            forall|k: int| i <= k < j ==> #[trigger] b@[k] <= 0x7f,
        decreases b.len() - j,
    {
        if b[j] == '.' as u8 {
            dotted = true;
        }
        j = j + 1;
    }
    j
}

/// The offset of the first `"` at or after `i`, if any.
fn find_quote(b: &[u8], i: usize) -> (r: Option<usize>)
    requires
        i <= b@.len(),
    ensures
        r matches Some(j) ==> closing_quote(b@, i as int) == Some(j as int),
        r is None ==> closing_quote(b@, i as int) is None,
{
    let mut j = i;
    while j < b.len()
        invariant
            i <= j <= b@.len(),
            closing_quote(b@, j as int) == closing_quote(b@, i as int),
        decreases b.len() - j,
    {
        if b[j] == '"' as u8 {
            return Some(j);
        }
        j = j + 1;
    }
    None
}

/// The step of the scan at offset `i` of `src`, whose bytes are `b`.
fn next_token(src: &str, b: &[u8], i: usize) -> (r: Result<Option<Token>, LexError>)
    requires
        b@ == src.spec_bytes(),
        i < b@.len(),
    ensures
        match step(b@, i as int) {
            Step::Skip => r matches Ok(None),
            Step::Emit(l) => r matches Ok(Some(t)) && token_matches(t, l, b@),
            Step::Fail(e) => r == Err::<Option<Token>, LexError>(e),
        },
{
    let c = b[i];
    if c == ' ' as u8 || c == '\t' as u8 || c == '\n' as u8 || c == '\r' as u8 {
        return Ok(None);
    }
    if i + 1 < b.len() {
        if let Some(kind) = pair_kind_of(c, b[i + 1]) {
            return Ok(Some(Token { kind, span: Span::from(i, 2), value: None }));
        }
    }
    if let Some(kind) = single_kind_of(c) {
        return Ok(Some(Token { kind, span: Span::from(i, 1), value: None }));
    }
    proof {
        lemma_closing_quote(b@, i + 1);
    }
    if c == '"' as u8 {
        return match find_quote(b, i + 1) {
            Some(j) => {
                proof {
                    lemma_ascii_boundary(b@, i + 1);
                    lemma_ascii_boundary(b@, j as int);
                }
                let text = slice_text(src, i + 1, j);
                let span = Span::from(i, j - i + 1);
                Ok(Some(Token { kind: TokenKind::Literal, span, value: Some(text) }))
            },
            None => Err(LexError::UnterminatedString(i)),
        };
    }
    let digit = is_digit_byte(c);
    if digit || is_alpha_byte(c) || c == '_' as u8 {
        let j = if digit {
            take_number(b, i + 1)
        } else {
            take_ident(b, i + 1)
        };
        proof {
            lemma_ascii_boundary(b@, i as int);
            lemma_ascii_boundary(b@, j as int);
        }
        let text = slice_text(src, i, j);
        let span = Span::from(i, j - i);
        if digit {
            return Ok(Some(Token { kind: TokenKind::Number, span, value: Some(text) }));
        }
        return match get_keyword(&text) {
            Some(kind) => Ok(Some(Token { kind, span, value: None })),
            None => Ok(Some(Token { kind: TokenKind::Identifier, span, value: Some(text) })),
        };
    }
    Err(LexError::UnrecognizedByte(i))
}

/// A tokenizer over one source text.
pub struct Lexer {
    src: String,
}

impl Lexer {
    /// The source bytes.
    pub closed spec fn bytes(&self) -> Seq<u8> {
        encode_utf8(self.src@)
    }

    pub fn new(src: &str) -> (r: Lexer)
        ensures
            r.bytes() == src.spec_bytes(),
    {
        Lexer { src: src.to_owned() }
    }

    /// All tokens of the source, closed by one end-of-stream token, or the first
    /// error that the scan meets (see `lex`).
    pub fn scan(&self) -> (r: Result<Vec<Token>, LexError>)
        ensures
            r is Ok <==> lex(self.bytes()) is Ok,
            r matches Ok(ts) ==> tokens_match(ts@, lex(self.bytes())->Ok_0, self.bytes()),
            r matches Err(e) ==> lex(self.bytes()) == Err::<Seq<Lexeme>, LexError>(e),
    {
        let src = self.src.as_str();
        let b = src.as_bytes();
        let mut out: Vec<Token> = Vec::new();
        let mut i: usize = 0;
        let ghost mut seen: Seq<Lexeme> = Seq::empty();
        while i < b.len()
            invariant
                b@ == self.bytes(),
                b@ == src.spec_bytes(),
                0 <= i <= b@.len(),
                tokens_match(out@, seen, b@),
                lex(b@) == prepend(seen, lex_from(b@, i as int)),
            decreases b.len() - i,
        {
            proof {
                lemma_step_bounds(b@, i as int);
            }
            match next_token(src, b, i) {
                Err(e) => {
                    return Err(e);
                },
                Ok(None) => {
                    i = i + 1;
                },
                Ok(Some(t)) => {
                    let ghost l = step(b@, i as int)->Emit_0;
                    let ghost rest = lex_from(b@, l.start + l.len);
                    let next = t.span.end + 1;
                    out.push(t);
                    proof {
                        assert(prepend(seen, lex_from(b@, i as int)) == prepend(seen.push(l), rest))
                            by {
                            if let Ok(r) = rest {
                                assert(seen + (seq![l] + r) =~= seen.push(l) + r);
                            }
                        }
                        seen = seen.push(l);
                    }
                    i = next;
                },
            }
        }
        let ghost last = end_lexeme(b.len() as int);
        out.push(Token { kind: TokenKind::EndOfFile, span: Span::from(i, 1), value: None });
        proof {
            seen = seen.push(last);
        }
        Ok(out)
    }
}

/// An empty source holds exactly one token: the end of the stream.
pub proof fn lemma_empty_input()
    ensures
        lex(Seq::<u8>::empty()) == Ok::<Seq<Lexeme>, LexError>(seq![end_lexeme(0)]),
{
}

/// A source of spaces, tabs and line breaks alone holds exactly one token: the
/// end of the stream.
pub proof fn lemma_blank_input(b: Seq<u8>)
    requires
        forall|i: int| 0 <= i < b.len() ==> is_space(#[trigger] b[i]),
    ensures
        lex(b) == Ok::<Seq<Lexeme>, LexError>(seq![end_lexeme(b.len() as int)]),
{
    lemma_blank_from(b, 0);
}

proof fn lemma_blank_from(b: Seq<u8>, i: int)
    requires
        0 <= i <= b.len(),
        forall|k: int| 0 <= k < b.len() ==> is_space(#[trigger] b[k]),
    ensures
        lex_from(b, i) == Ok::<Seq<Lexeme>, LexError>(seq![end_lexeme(b.len() as int)]),
    decreases b.len() - i,
{
    if i < b.len() {
        lemma_blank_from(b, i + 1);
    }
}

/// Every successful scan ends with exactly one end-of-stream token, placed
/// just past the last byte, and holds no other.
pub proof fn lemma_ends_with_end_of_stream(b: Seq<u8>)
    ensures
        lex(b) matches Ok(ls) ==> {
            &&& ls.len() >= 1
            &&& ls.last() == end_lexeme(b.len() as int)
            &&& forall|i: int|
                0 <= i < ls.len() - 1 ==> (#[trigger] ls[i]).kind != TokenKind::EndOfFile
        },
{
    lemma_end_of_stream_from(b, 0);
}

proof fn lemma_end_of_stream_from(b: Seq<u8>, i: int)
    requires
        0 <= i,
    ensures
        lex_from(b, i) matches Ok(ls) ==> {
            &&& ls.len() >= 1
            &&& ls.last() == end_lexeme(b.len() as int)
            &&& forall|k: int|
                0 <= k < ls.len() - 1 ==> (#[trigger] ls[k]).kind != TokenKind::EndOfFile
        },
    decreases b.len() - i,
{
    if i < b.len() {
        lemma_step_bounds(b, i);
        match step(b, i) {
            Step::Skip => lemma_end_of_stream_from(b, i + 1),
            Step::Emit(l) => {
                lemma_end_of_stream_from(b, l.start + l.len);
                if let Ok(rest) = lex_from(b, l.start + l.len) {
                    let ls = seq![l] + rest;
                    assert(l.kind != TokenKind::EndOfFile);
                    assert forall|k: int| 0 <= k < ls.len() - 1 implies (#[trigger] ls[k]).kind
                        != TokenKind::EndOfFile by {
                        if k > 0 {
                            assert(ls[k] == rest[k - 1]);
                        }
                    }
                }
            },
            Step::Fail(_) => {},
        }
    }
}

/// Every lexeme of a successful scan from `i` was emitted by the step at its
/// start, starts at or after `i`, and the next one starts at or after its end.
proof fn lemma_lexemes_in_order(b: Seq<u8>, i: int)
    requires
        0 <= i <= b.len(),
    ensures
        lex_from(b, i) matches Ok(ls) ==> {
            &&& ls.len() >= 1
            &&& ls.last() == end_lexeme(b.len() as int)
            &&& forall|j: int| 0 <= j < ls.len() ==> i <= (#[trigger] ls[j]).start
            &&& forall|j: int|
                0 <= j < ls.len() - 1 ==> step(b, (#[trigger] ls[j]).start) == Step::Emit(ls[j])
                    && ls[j].start < b.len()
            &&& forall|j: int, m: int|
                0 <= j && m == j + 1 && m < ls.len() ==> (#[trigger] ls[m]).start >= (
                #[trigger] ls[j]).start + ls[j].len
        },
    decreases b.len() - i,
{
    if i < b.len() {
        lemma_step_bounds(b, i);
        match step(b, i) {
            Step::Skip => lemma_lexemes_in_order(b, i + 1),
            Step::Emit(l) => {
                lemma_lexemes_in_order(b, l.start + l.len);
                if let Ok(rest) = lex_from(b, l.start + l.len) {
                    let ls = seq![l] + rest;
                    assert forall|j: int| 0 < j < ls.len() implies ls[j] == rest[j - 1] by {}
                    assert(ls[0] == l);
                    assert forall|j: int, m: int|
                        0 <= j && m == j + 1 && m < ls.len() implies (#[trigger] ls[m]).start >= (
                        #[trigger] ls[j]).start + ls[j].len by {
                        assert(ls[m] == rest[m - 1]);
                        if j > 0 {
                            assert(ls[j] == rest[j - 1]);
                        }
                    }
                }
            },
            Step::Fail(_) => {},
        }
    }
}

/// Token kinds `k1` and `k2` that, written next to each other, spell an
/// operator of two bytes.
pub open spec fn spells_pair(k1: TokenKind, k2: TokenKind) -> bool {
    ||| k1 == TokenKind::Plus && k2 == TokenKind::Equal
    ||| k1 == TokenKind::Minus && k2 == TokenKind::Equal
    ||| k1 == TokenKind::Minus && k2 == TokenKind::More
    ||| k1 == TokenKind::Slash && k2 == TokenKind::Slash
    ||| k1 == TokenKind::Less && k2 == TokenKind::Minus
    ||| k1 == TokenKind::Colon && k2 == TokenKind::Colon
    ||| k1 == TokenKind::Colon && k2 == TokenKind::Equal
    ||| k1 == TokenKind::Less && k2 == TokenKind::Equal
    ||| k1 == TokenKind::More && k2 == TokenKind::Equal
    ||| k1 == TokenKind::Equal && k2 == TokenKind::Equal
    ||| k1 == TokenKind::Bang && k2 == TokenKind::Equal
}

/// Maximal munch over a whole scan: no two tokens that stand next to each
/// other, one byte apart, spell an operator of two bytes (`=` `=` for `==`,
/// `-` `>` for `->`, and the like).
pub proof fn lemma_no_split_operator(b: Seq<u8>)
    ensures
        lex(b) matches Ok(ls) ==> forall|j: int|
            0 <= j < ls.len() - 1 && (#[trigger] ls[j + 1]).start == ls[j].start + 1
                ==> !spells_pair(ls[j].kind, ls[j + 1].kind),
{
    lemma_lexemes_in_order(b, 0);
    if let Ok(ls) = lex(b) {
        assert forall|j: int|
            0 <= j < ls.len() - 1 && (#[trigger] ls[j + 1]).start == ls[j].start + 1
                implies !spells_pair(ls[j].kind, ls[j + 1].kind) by {
            let l1 = ls[j];
            let l2 = ls[j + 1];
            assert(l2.start >= l1.start + l1.len);
            let s = l1.start;
            lemma_step_bounds(b, s);
            if j + 1 < ls.len() - 1 {
                lemma_step_bounds(b, s + 1);
                assert(step(b, s + 1) == Step::Emit(l2));
            } else {
                assert(l2 == end_lexeme(b.len() as int));
            }
        }
    }
}

/// A `"` that the scan meets with no `"` after it fails the scan with
/// `UnterminatedString` at that offset: no token is made of the rest.
pub proof fn lemma_unterminated_string(b: Seq<u8>, k: int)
    requires
        0 <= k < b.len(),
        b[k] == '"' as u8,
        forall|j: int| k < j < b.len() ==> #[trigger] b[j] != '"' as u8,
    ensures
        lex_from(b, k) == Err::<Seq<Lexeme>, LexError>(LexError::UnterminatedString(k as usize)),
{
    lemma_no_quote(b, k + 1);
}

proof fn lemma_no_quote(b: Seq<u8>, i: int)
    requires
        0 <= i,
        forall|j: int| i <= j < b.len() ==> #[trigger] b[j] != '"' as u8,
    ensures
        closing_quote(b, i) is None,
    decreases b.len() - i,
{
    if i < b.len() {
        lemma_no_quote(b, i + 1);
    }
}

/// A successful scan never truncates a string: each string literal token
/// runs from an opening `"` to a closing `"` within the input, and its text
/// is what stands between them.
pub proof fn lemma_strings_closed(b: Seq<u8>)
    ensures
        lex(b) matches Ok(ls) ==> forall|j: int|
            0 <= j < ls.len() && (#[trigger] ls[j]).kind == TokenKind::Literal ==> {
                let l = ls[j];
                &&& l.len >= 2
                &&& l.start + l.len <= b.len()
                &&& b[l.start] == '"' as u8
                &&& b[l.start + l.len - 1] == '"' as u8
                &&& l.text == Some((l.start + 1, l.start + l.len - 1))
            },
{
    lemma_lexemes_in_order(b, 0);
    if let Ok(ls) = lex(b) {
        assert forall|j: int|
            0 <= j < ls.len() && (#[trigger] ls[j]).kind == TokenKind::Literal implies {
            let l = ls[j];
            &&& l.len >= 2
            &&& l.start + l.len <= b.len()
            &&& b[l.start] == '"' as u8
            &&& b[l.start + l.len - 1] == '"' as u8
            &&& l.text == Some((l.start + 1, l.start + l.len - 1))
        } by {
            if j < ls.len() - 1 {
                lemma_step_bounds(b, ls[j].start);
                lemma_closing_quote(b, ls[j].start + 1);
            }
        }
    }
}

/// Maximal munch: wherever the scan meets the two bytes of an operator such as
/// `==` or `->`, it emits that operator as one token of two bytes, never its
/// one-byte prefix.
pub proof fn lemma_longest_operator(b: Seq<u8>, i: int)
    requires
        0 <= i,
        i + 1 < b.len(),
        pair_kind(b[i], b[i + 1]) is Some,
    ensures
        step(b, i) == Step::Emit(
            Lexeme { kind: pair_kind(b[i], b[i + 1])->0, start: i, len: 2, text: None },
        ),
{
}

/// The number token that covers the whole source of `len` bytes.
pub open spec fn number_lexeme(len: int) -> Lexeme {
    Lexeme { kind: TokenKind::Number, start: 0, len, text: Some((0, len)) }
}

/// The decimal digits of `n`, most significant first, without leading zeros.
pub open spec fn decimal_text(n: nat) -> Seq<char>
    decreases n,
{
    if n < 10 {
        seq![((n + 48) as u8) as char]
    } else {
        decimal_text(n / 10).push((((n % 10) + 48) as u8) as char)
    }
}

proof fn lemma_decimal_text(n: nat)
    ensures
        decimal_text(n).len() > 0,
        all_digits(decimal_text(n)),
        digits_value(decimal_text(n)) == n,
    decreases n,
{
    let t = decimal_text(n);
    if n >= 10 {
        lemma_decimal_text(n / 10);
        assert(t.drop_last() =~= decimal_text(n / 10));
        assert(t.last() as nat == n % 10 + 48);
        assert(n == (n / 10) * 10 + n % 10);
        assert('0' as nat == 48);
        assert(digits_value(t) == digits_value(decimal_text(n / 10)) * 10 + n % 10);
    } else {
        assert(t.drop_last() =~= Seq::<char>::empty());
        assert(t.last() as nat == n + 48);
        assert('0' as nat == 48);
        assert(digits_value(t) == digits_value(t.drop_last()) * 10 + n);
    }
}

proof fn lemma_number_run(b: Seq<u8>, i: int, dotted: bool)
    requires
        0 <= i <= b.len(),
        forall|k: int| i <= k < b.len() ==> is_digit(#[trigger] b[k]) || b[k] == '.' as u8,
        forall|k: int, l: int|
            i <= k < b.len() && i <= l < b.len() && #[trigger] b[k] == '.' as u8 && #[trigger] b[l]
                == '.' as u8 ==> k == l,
        dotted ==> forall|k: int| i <= k < b.len() ==> #[trigger] b[k] != '.' as u8,
    ensures
        number_end(b, i, dotted) == b.len(),
    decreases b.len() - i,
{
    if i < b.len() {
        lemma_number_run(b, i + 1, dotted || b[i] == '.' as u8);
    }
}

/// A source that is one number's text, digits and at most one dot, scans as
/// that one number token and the end of the stream.
proof fn lemma_lone_number(t: Seq<char>)
    requires
        t.len() > 0,
        '0' <= t[0] <= '9',
        forall|k: int| 0 <= k < t.len() ==> ('0' <= #[trigger] t[k] <= '9') || t[k] == '.',
        forall|k: int, l: int|
            0 <= k < t.len() && 0 <= l < t.len() && #[trigger] t[k] == '.' && #[trigger] t[l]
                == '.' ==> k == l,
    ensures
        ({
            let b = encode_utf8(t);
            &&& b.len() == t.len()
            &&& lex(b) == Ok::<Seq<Lexeme>, LexError>(
                seq![
                    number_lexeme(b.len() as int),
                    end_lexeme(b.len() as int),
                ],
            )
            &&& forall|v: Seq<char>| encode_utf8(v) == b.subrange(0, b.len() as int) ==> v == t
        }),
{
    let b = encode_utf8(t);
    assert(is_ascii_chars(t));
    is_ascii_chars_encode_utf8(t);
    assert forall|k: int| 0 <= k < b.len() implies is_digit(#[trigger] b[k]) || b[k]
        == '.' as u8 by {
        assert(t[k] as u8 == b[k]);
    }
    assert forall|k: int, l: int|
        0 <= k < b.len() && 0 <= l < b.len() && #[trigger] b[k] == '.' as u8 && #[trigger] b[l]
            == '.' as u8 implies k == l by {
        assert(t[k] as u8 == b[k]);
        assert(t[l] as u8 == b[l]);
    }
    assert(t[0] as u8 == b[0]);
    lemma_number_run(b, 1, false);
    assert(step(b, 0) == Step::Emit(
        number_lexeme(b.len() as int),
    ));
    let l = number_lexeme(b.len() as int);
    assert(lex_from(b, b.len() as int) == Ok::<Seq<Lexeme>, LexError>(
        seq![end_lexeme(b.len() as int)],
    ));
    assert(seq![l] + seq![end_lexeme(b.len() as int)] =~= seq![l, end_lexeme(b.len() as int)]);
    assert forall|v: Seq<char>| encode_utf8(v) == b.subrange(0, b.len() as int) implies v == t by {
        assert(b.subrange(0, b.len() as int) =~= b);
        encode_utf8_decode_utf8(v);
        encode_utf8_decode_utf8(t);
    }
}

/// Numeric round trip for integers: the decimal text of any `n` that fits in
/// an `i32` scans as one number token, and the text that token carries
/// denotes `n` again.
pub proof fn lemma_integer_round_trip(n: nat)
    requires
        n <= i32::MAX,
    ensures
        ({
            let b = encode_utf8(decimal_text(n));
            &&& lex(b) == Ok::<Seq<Lexeme>, LexError>(
                seq![
                    number_lexeme(b.len() as int),
                    end_lexeme(b.len() as int),
                ],
            )
            &&& forall|v: Seq<char>|
                encode_utf8(v) == b.subrange(0, b.len() as int) ==> literal_of(v) == Some(
                    Tree::Integer(n as i32),
                )
        }),
{
    let t = decimal_text(n);
    lemma_decimal_text(n);
    assert(forall|k: int| 0 <= k < t.len() ==> '0' <= #[trigger] t[k] <= '9');
    lemma_no_separators(t);
    lemma_lone_number(t);
    assert(!has_dot(t));
}

/// Numeric round trip for decimals: digits, a `.` and digits scan as one
/// number token, and the text that token carries denotes the same decimal.
pub proof fn lemma_decimal_round_trip(whole: Seq<char>, fraction: Seq<char>)
    requires
        whole.len() > 0,
        all_digits(whole),
        all_digits(fraction),
    ensures
        ({
            let t = whole + seq!['.'] + fraction;
            let b = encode_utf8(t);
            &&& lex(b) == Ok::<Seq<Lexeme>, LexError>(
                seq![
                    number_lexeme(b.len() as int),
                    end_lexeme(b.len() as int),
                ],
            )
            &&& forall|v: Seq<char>|
                encode_utf8(v) == b.subrange(0, b.len() as int) ==> literal_of(v) == Some(
                    Tree::Float(t),
                )
        }),
{
    let t = whole + seq!['.'] + fraction;
    let p = whole.len() as int;
    assert(t[p] == '.');
    assert(t.subrange(0, p) =~= whole);
    assert(t.subrange(p + 1, t.len() as int) =~= fraction);
    assert forall|k: int| 0 <= k < t.len() implies ('0' <= #[trigger] t[k] <= '9') || t[k]
        == '.' by {
        if k < p {
            assert(t[k] == whole[k]);
        } else if k > p {
            assert(t[k] == fraction[k - p - 1]);
        }
    }
    assert(t[0] == whole[0]);
    assert forall|k: int| 0 <= k < t.len() && #[trigger] t[k] == '.' implies k == p by {
        if k < p {
            assert(t[k] == whole[k]);
        } else if k > p {
            assert(t[k] == fraction[k - p - 1]);
        }
    }
    lemma_no_separators(t);
    lemma_lone_number(t);
    assert(has_dot(t));
    assert(is_decimal_text(t));
}

} // verus!
