//! Numeric literals: from their text to an integer or a decimal node.
use vstd::prelude::*;
use vstd::string::StrSliceExecFns;
use vstd::string::StringExecFns;
use vstd::utf8::{encode_utf8, is_ascii_chars, is_ascii_chars_encode_utf8};

use crate::ast::{Node, Tree};

verus! {

pub open spec fn is_digit_char(c: char) -> bool {
    '0' <= c <= '9'
}

pub open spec fn all_digits(s: Seq<char>) -> bool {
    forall|i: int| 0 <= i < s.len() ==> is_digit_char(#[trigger] s[i])
}

/// The number that a run of decimal digits spells.
pub open spec fn digits_value(s: Seq<char>) -> nat
    decreases s.len(),
{
    if s.len() == 0 {
        0
    } else {
        digits_value(s.drop_last()) * 10 + (s.last() as nat - '0' as nat) as nat
    }
}

pub open spec fn has_dot(s: Seq<char>) -> bool {
    exists|p: int| 0 <= p < s.len() && s[p] == '.'
}

/// Digits on both sides of exactly one `.`, with at least one digit in all.
pub open spec fn is_decimal_text(s: Seq<char>) -> bool {
    &&& s.len() >= 2
    &&& exists|p: int|
        0 <= p < s.len() && s[p] == '.' && all_digits(#[trigger] s.subrange(0, p)) && all_digits(
            s.subrange(p + 1, s.len() as int),
        )
}

/// What a numeric text without separators denotes: an integer where it holds
/// no `.` (and fits in an `i32`), a decimal where it holds one; `None` where it
/// is malformed.
pub open spec fn plain_literal_of(s: Seq<char>) -> Option<Tree> {
    if has_dot(s) {
        if is_decimal_text(s) {
            Some(Tree::Float(s))
        } else {
            None
        }
    } else if s.len() > 0 && all_digits(s) && digits_value(s) <= i32::MAX {
        Some(Tree::Integer(digits_value(s) as i32))
    } else {
        None
    }
}

/// `s` without its `_` separators.
pub open spec fn without_separators(s: Seq<char>) -> Seq<char>
    decreases s.len(),
{
    if s.len() == 0 {
        s
    } else if s.last() == '_' {
        without_separators(s.drop_last())
    } else {
        without_separators(s.drop_last()).push(s.last())
    }
}

/// What a numeric text denotes, its `_` separators aside.
pub open spec fn literal_of(s: Seq<char>) -> Option<Tree> {
    plain_literal_of(without_separators(s))
}

proof fn lemma_separators_kept_out(s: Seq<char>, k: int)
    requires
        0 <= k < s.len(),
        s[k] != '_',
    ensures
        exists|j: int|
            0 <= j < without_separators(s).len() && #[trigger] without_separators(s)[j] == s[k],
    decreases s.len(),
{
    let p = without_separators(s.drop_last());
    if k == s.len() - 1 {
        assert(without_separators(s)[p.len() as int] == s[k]);
    } else {
        lemma_separators_kept_out(s.drop_last(), k);
        let j = choose|j: int| 0 <= j < p.len() && #[trigger] p[j] == s.drop_last()[k];
        assert(without_separators(s)[j] == s[k]);
    }
}

pub(crate) proof fn lemma_no_separators(s: Seq<char>)
    requires
        forall|k: int| 0 <= k < s.len() ==> #[trigger] s[k] != '_',
    ensures
        without_separators(s) == s,
    decreases s.len(),
{
    if s.len() > 0 {
        lemma_no_separators(s.drop_last());
        assert(s.drop_last().push(s.last()) =~= s);
    }
}

/// A text with a character that is neither a digit nor `.` denotes nothing.
proof fn lemma_stray_char(c: Seq<char>, j: int)
    requires
        0 <= j < c.len(),
        !is_digit_char(c[j]),
        c[j] != '.',
    ensures
        plain_literal_of(c) is None,
{
    if is_decimal_text(c) {
        let p = choose|p: int|
            0 <= p < c.len() && c[p] == '.' && all_digits(#[trigger] c.subrange(0, p))
                && all_digits(
                c.subrange(p + 1, c.len() as int),
            );
        if j < p {
            assert(c.subrange(0, p)[j] == c[j]);
        } else {
            assert(c.subrange(p + 1, c.len() as int)[j - p - 1] == c[j]);
        }
    }
}

proof fn lemma_ascii_bytes(s: Seq<char>)
    requires
        is_ascii_chars(s),
    ensures
        encode_utf8(s).len() == s.len(),
        forall|i: int|
            0 <= i < s.len() ==> (#[trigger] encode_utf8(s)[i]) as int == s[i] as int,
{
    is_ascii_chars_encode_utf8(s);
    assert forall|i: int| 0 <= i < s.len() implies (#[trigger] encode_utf8(s)[i]) as int
        == s[i] as int by {
        assert(s[i] as u8 == encode_utf8(s)[i]);
        assert('\0' <= s[i] <= '\u{7f}');
    }
}

fn find_dot(b: &[u8]) -> (r: Option<usize>)
    ensures
        r is None ==> forall|i: int| 0 <= i < b@.len() ==> b@[i] != '.' as u8,
        r matches Some(p) ==> p < b@.len() && b@[p as int] == '.' as u8 && forall|i: int|
            0 <= i < p ==> b@[i] != '.' as u8,
{
    let mut i: usize = 0;
    while i < b.len()
        invariant
            0 <= i <= b@.len(),
            forall|k: int| 0 <= k < i ==> b@[k] != '.' as u8,
        decreases b.len() - i,
    {
        if b[i] == '.' as u8 {
            return Some(i);
        }
        i = i + 1;
    }
    None
}

fn digits_between(b: &[u8], lo: usize, hi: usize) -> (r: bool)
    requires
        lo <= hi <= b@.len(),
    ensures
        r == forall|k: int| lo <= k < hi ==> '0' as u8 <= #[trigger] b@[k] <= '9' as u8,
{
    let mut i: usize = lo;
    while i < hi
        invariant
            lo <= i <= hi <= b@.len(),
            forall|k: int| lo <= k < i ==> '0' as u8 <= #[trigger] b@[k] <= '9' as u8,
        decreases hi - i,
    {
        if b[i] < '0' as u8 || b[i] > '9' as u8 {
            return false;
        }
        i = i + 1;
    }
    true
}

/// The value of the digits `b`, if it fits in an `i32`.
fn integer_value(b: &[u8], Ghost(s): Ghost<Seq<char>>) -> (r: Option<i32>)
    requires
        b@.len() == s.len(),
        all_digits(s),
        forall|i: int| 0 <= i < s.len() ==> (#[trigger] b@[i]) as int == s[i] as int,
    ensures
        r is Some <==> digits_value(s) <= i32::MAX,
        r matches Some(v) ==> v as int == digits_value(s),
{
    let mut acc: i64 = 0;
    let mut i: usize = 0;
    while i < b.len()
        invariant
            b@.len() == s.len(),
            all_digits(s),
            forall|i: int| 0 <= i < s.len() ==> (#[trigger] b@[i]) as int == s[i] as int,
            0 <= i <= b@.len(),
            acc as int == digits_value(s.subrange(0, i as int)),
            acc <= i32::MAX,
        decreases b.len() - i,
    {
        assert(s.subrange(0, i + 1).drop_last() =~= s.subrange(0, i as int));
        assert(is_digit_char(s[i as int]));
        acc = acc * 10 + (b[i] - ('0' as u8)) as i64;
        i = i + 1;
        if acc > i32::MAX as i64 {
            proof {
                lemma_digits_value_grows(s, i as int);
            }
            return None;
        }
    }
    assert(s.subrange(0, i as int) =~= s);
    Some(acc as i32)
}

proof fn lemma_digits_value_grows(s: Seq<char>, i: int)
    requires
        0 <= i <= s.len(),
        all_digits(s),
    ensures
        digits_value(s.subrange(0, i)) <= digits_value(s),
    decreases s.len() - i,
{
    if i < s.len() {
        lemma_digits_value_grows(s, i + 1);
        assert(s.subrange(0, i + 1).drop_last() =~= s.subrange(0, i));
    } else {
        assert(s.subrange(0, i) =~= s);
    }
}

/// The literal node that a number's text stands for, or `None` where the text
/// is malformed (see `literal_of`): `_` separators are dropped first.
pub fn parse_number(text: &String) -> (r: Option<Node>)
    ensures
        r is Some <==> literal_of(text@) is Some,
        r matches Some(n) ==> n.tree() == literal_of(text@)->0,
{
    let ghost s = text@;
    if !text.is_ascii() {
        proof {
            let k = choose|k: int| 0 <= k < s.len() && !('\0' <= #[trigger] s[k] <= '\u{7f}');
            lemma_separators_kept_out(s, k);
            let c = without_separators(s);
            let j = choose|j: int| 0 <= j < c.len() && #[trigger] c[j] == s[k];
            lemma_stray_char(c, j);
        }
        return None;
    }
    let t = text.as_str();
    let b = t.as_bytes();
    proof {
        lemma_ascii_bytes(s);
    }
    let mut plain = String::new();
    let mut i: usize = 0;
    while i < b.len()
        invariant
            b@ == encode_utf8(s),
            b@.len() == s.len(),
            forall|i: int| 0 <= i < s.len() ==> (#[trigger] b@[i]) as int == s[i] as int,
            t@ == s,
            t.is_ascii(),
            0 <= i <= b@.len(),
            plain@ == without_separators(s.subrange(0, i as int)),
        decreases b.len() - i,
    {
        assert(s.subrange(0, i + 1).drop_last() =~= s.subrange(0, i as int));
        assert(b@[i as int] as int == s[i as int] as int);
        if b[i] != '_' as u8 {
            let piece = t.substring_ascii(i, i + 1);
            let ghost before = plain@;
            plain.append(piece);
            assert(plain@ =~= before.push(s[i as int]));
        }
        i = i + 1;
    }
    assert(s.subrange(0, i as int) =~= s);
    parse_plain(&plain)
}

/// The literal node that a text without separators stands for, or `None`
/// where it is malformed (see `plain_literal_of`).
fn parse_plain(text: &String) -> (r: Option<Node>)
    ensures
        r is Some <==> plain_literal_of(text@) is Some,
        r matches Some(n) ==> n.tree() == plain_literal_of(text@)->0,
{
    let ghost s = text@;
    if !text.is_ascii() {
        assert(exists|k: int| 0 <= k < s.len() && !('\0' <= #[trigger] s[k] <= '\u{7f}'));
        let ghost k = choose|k: int| 0 <= k < s.len() && !('\0' <= #[trigger] s[k] <= '\u{7f}');
        proof {
            if is_decimal_text(s) {
                let p = choose|p: int|
                    0 <= p < s.len() && s[p] == '.' && all_digits(#[trigger] s.subrange(0, p))
                        && all_digits(s.subrange(p + 1, s.len() as int));
                if k < p {
                    assert(s.subrange(0, p)[k] == s[k]);
                } else {
                    assert(s.subrange(p + 1, s.len() as int)[k - p - 1] == s[k]);
                }
            }
        }
        return None;
    }
    let b = text.as_str().as_bytes();
    proof {
        lemma_ascii_bytes(s);
    }
    assert(b@.len() == s.len());
    match find_dot(b) {
        Some(p) => {
            assert(s[p as int] == '.');
            assert(p < b.len());
            assert(has_dot(s));
            let before = digits_between(b, 0, p);
            let after = digits_between(b, p + 1, b.len());
            if before && after && b.len() >= 2 {
                assert(all_digits(s.subrange(0, p as int))) by {
                    assert forall|i: int| 0 <= i < p implies is_digit_char(
                        #[trigger] s.subrange(0, p as int)[i],
                    ) by {
                        assert(b@[i] as int == s[i] as int);
                    }
                }
                assert(all_digits(s.subrange(p + 1, s.len() as int))) by {
                    assert forall|i: int| 0 <= i < s.len() - p - 1 implies is_digit_char(
                        #[trigger] s.subrange(p + 1, s.len() as int)[i],
                    ) by {
                        assert(b@[p + 1 + i] as int == s[p + 1 + i] as int);
                    }
                }
                assert(is_decimal_text(s));
                Some(Node::Float(text.clone()))
            } else {
                proof {
                    if is_decimal_text(s) {
                        let q = choose|q: int|
                            0 <= q < s.len() && s[q] == '.' && all_digits(
                                #[trigger] s.subrange(0, q),
                            ) && all_digits(s.subrange(q + 1, s.len() as int));
                        if q < p {
                            assert(s.subrange(0, p as int)[q] == s[q]);
                            assert(b@[q] as int == s[q] as int);
                        } else if q > p {
                            assert(s.subrange(0, q)[p as int] == s[p as int]);
                        } else {
                            if !before {
                                let k = choose|k: int|
                                    0 <= k < p && !('0' as u8 <= #[trigger] b@[k] <= '9' as u8);
                                assert(s.subrange(0, q)[k] == s[k]);
                                assert(b@[k] as int == s[k] as int);
                            } else if !after {
                                let k = choose|k: int|
                                    p + 1 <= k < b@.len() && !('0' as u8 <= #[trigger] b@[k]
                                        <= '9' as u8);
                                assert(s.subrange(q + 1, s.len() as int)[k - q - 1] == s[k]);
                                assert(b@[k] as int == s[k] as int);
                            }
                        }
                    }
                }
                assert(!is_decimal_text(s));
                None
            }
        },
        None => {
            assert(!has_dot(s)) by {
                if has_dot(s) {
                    let k = choose|k: int| 0 <= k < s.len() && s[k] == '.';
                    assert(b@[k] as int == s[k] as int);
                }
            }
            if b.len() == 0 || !digits_between(b, 0, b.len()) {
                proof {
                    if s.len() > 0 && all_digits(s) {
                        let k = choose|k: int|
                            0 <= k < b@.len() && !('0' as u8 <= #[trigger] b@[k] <= '9' as u8);
                        assert(is_digit_char(s[k]));
                        assert(b@[k] as int == s[k] as int);
                    }
                }
                return None;
            }
            assert(all_digits(s)) by {
                assert forall|i: int| 0 <= i < s.len() implies is_digit_char(#[trigger] s[i]) by {
                    assert(b@[i] as int == s[i] as int);
                }
            }
            match integer_value(b, Ghost(s)) {
                Some(v) => Some(Node::Integer(v)),
                None => None,
            }
        },
    }
}

} // verus!
