//! What the text of a plain scalar writes: a truth value, a number, or itself.
use crate::bytes::{byte_is_digit, is_digit, DASH, DIGIT_0, DOT, PLUS, UPPER_A, UPPER_Z};
use crate::cursor::Parser;
use crate::value::{Node, Yaml};
use vstd::prelude::*;
use vstd::string::*;
use vstd::utf8::*;

verus! {

pub const LOWER_E: u8 = 101;

pub const UPPER_E: u8 = 69;

/// An upper-case ASCII letter as its lower-case one; any other byte as it is.
pub open spec fn lower(b: u8) -> u8 {
    if UPPER_A <= b <= UPPER_Z {
        (b + 32) as u8
    } else {
        b
    }
}

/// `s` and `word` are of one length and agree byte for byte once ASCII letters of `s`
/// are lowered.
pub open spec fn matches_word(s: Seq<u8>, word: Seq<u8>) -> bool {
    &&& s.len() == word.len()
    &&& forall|i: int| 0 <= i < s.len() ==> lower(#[trigger] s[i]) == word[i]
}

/// The truth value that a text spells, in any mix of upper and lower case:
/// `true`, `yes` and `on`, or `false`, `no` and `off`.
pub open spec fn bool_value(s: Seq<u8>) -> Option<bool> {
    if matches_word(s, "true".spec_bytes()) || matches_word(s, "yes".spec_bytes())
        || matches_word(s, "on".spec_bytes()) {
        Some(true)
    } else if matches_word(s, "false".spec_bytes()) || matches_word(s, "no".spec_bytes())
        || matches_word(s, "off".spec_bytes()) {
        Some(false)
    } else {
        None
    }
}

pub open spec fn all_digits(s: Seq<u8>) -> bool {
    forall|i: int| 0 <= i < s.len() ==> is_digit(#[trigger] s[i])
}

/// The number that a run of decimal digits writes.
pub open spec fn digits_value(s: Seq<u8>) -> nat
    decreases s.len(),
{
    if s.len() == 0 {
        0
    } else {
        digits_value(s.drop_last()) * 10 + (s.last() - DIGIT_0) as nat
    }
}

pub open spec fn has_sign(s: Seq<u8>) -> bool {
    s.len() > 0 && (s[0] == PLUS || s[0] == DASH)
}

/// The integer that a text writes: an optional sign and at least one decimal digit,
/// where the number fits in 64 bits with a sign.
pub open spec fn int_value(s: Seq<u8>) -> Option<int> {
    let body = if has_sign(s) {
        s.subrange(1, s.len() as int)
    } else {
        s
    };
    if body.len() > 0 && all_digits(body) {
        let v: int = if s[0] == DASH {
            -(digits_value(body) as int)
        } else {
            digits_value(body) as int
        };
        if i64::MIN <= v <= i64::MAX {
            Some(v)
        } else {
            None
        }
    } else {
        None
    }
}

/// Where the run of decimal digits that begins at `i` ends.
pub open spec fn digit_run(s: Seq<u8>, i: int) -> int
    decreases s.len() - i,
{
    if 0 <= i < s.len() && is_digit(s[i]) {
        digit_run(s, i + 1)
    } else {
        i
    }
}

/// A decimal number: an optional sign, digits with at most one point among them and at
/// least one digit, then optionally `e` or `E`, an optional sign and at least one digit.
pub open spec fn is_number(s: Seq<u8>) -> bool {
    let a: int = if has_sign(s) {
        1
    } else {
        0
    };
    let b = digit_run(s, a);
    let pointed = b < s.len() && s[b] == DOT;
    let c = if pointed {
        digit_run(s, b + 1)
    } else {
        b
    };
    let mantissa = if pointed {
        (b - a) + (c - (b + 1)) >= 1
    } else {
        b - a >= 1
    };
    mantissa && (c == s.len() || ((s[c] == LOWER_E || s[c] == UPPER_E) && {
        let d = if c + 1 < s.len() && (s[c + 1] == PLUS || s[c + 1] == DASH) {
            c + 2
        } else {
            c + 1
        };
        let e = digit_run(s, d);
        e > d && e == s.len()
    }))
}

/// The text holds a point or an exponent mark.
pub open spec fn has_float_mark(s: Seq<u8>) -> bool {
    exists|i: int| 0 <= i < s.len() && (#[trigger] s[i] == DOT || s[i] == LOWER_E || s[i] == UPPER_E)
}

/// A text that is read as a floating-point number.
pub open spec fn is_float(s: Seq<u8>) -> bool {
    has_float_mark(s) && is_number(s)
}

/// What an unquoted scalar is read as: a truth value, else an integer, else a
/// floating-point number, else the text itself.
pub open spec fn inferred(text: Seq<char>) -> Node {
    let s = encode_utf8(text);
    match bool_value(s) {
        Some(b) => Node::Bool(b),
        None => match int_value(s) {
            Some(i) => Node::Int(i),
            None => if is_float(s) {
                Node::Float(text)
            } else {
                Node::Scalar(text)
            },
        },
    }
}

/// Which truth value a text spells does not depend on the case of its letters: two
/// texts that agree once their ASCII letters are lowered spell the same.
pub proof fn bool_value_ignores_case(s: Seq<u8>, t: Seq<u8>)
    requires
        s.len() == t.len(),
        forall|i: int| 0 <= i < s.len() ==> lower(#[trigger] s[i]) == lower(t[i]),
    ensures
        bool_value(s) == bool_value(t),
{
    assert forall|w: Seq<u8>| matches_word(s, w) == matches_word(t, w) by {
        if matches_word(s, w) {
            assert forall|i: int| 0 <= i < t.len() implies lower(#[trigger] t[i]) == w[i] by {
                assert(lower(s[i]) == w[i]);
            }
        }
        if matches_word(t, w) {
            assert forall|i: int| 0 <= i < s.len() implies lower(#[trigger] s[i]) == w[i] by {
                assert(lower(t[i]) == w[i]);
            }
        }
    }
}

fn lower_byte(b: u8) -> (r: u8)
    ensures
        r == lower(b),
{
    if UPPER_A <= b && b <= UPPER_Z {
        b + 32
    } else {
        b
    }
}

fn word_matches(s: &[u8], word: &[u8]) -> (r: bool)
    ensures
        r == matches_word(s@, word@),
{
    if s.len() != word.len() {
        return false;
    }
    let mut i: usize = 0;
    while i < s.len()
        invariant
            s@.len() == word@.len(),
            i <= s@.len(),
            forall|k: int| 0 <= k < i ==> lower(#[trigger] s@[k]) == word@[k],
        decreases s@.len() - i,
    {
        if lower_byte(s[i]) != word[i] {
            return false;
        }
        i = i + 1;
    }
    true
}

impl<'a> Parser<'a> {
    /// Reads a truth value.
    pub fn parse_bool(s: &str) -> (r: Option<bool>)
        ensures
            r == bool_value(s.spec_bytes()),
    {
        let b = s.as_bytes();
        if word_matches(b, "true".as_bytes()) || word_matches(b, "yes".as_bytes())
            || word_matches(b, "on".as_bytes()) {
            Some(true)
        } else if word_matches(b, "false".as_bytes()) || word_matches(b, "no".as_bytes())
            || word_matches(b, "off".as_bytes()) {
            Some(false)
        } else {
            None
        }
    }

    /// Reads an unquoted scalar as the most specific kind of value that its text
    /// writes.
    pub fn infer_scalar_type(s: &'a str) -> (y: Yaml<'a>)
        ensures
            y@ == inferred(s@),
    {
        if let Some(b) = Self::parse_bool(s) {
            return Yaml::Bool(b);
        }
        if let Some(i) = parse_int(s.as_bytes()) {
            return Yaml::Int(i);
        }
        if parse_float(s.as_bytes()) {
            return Yaml::Float(s);
        }
        Yaml::Scalar(s)
    }
}

fn digits_end(s: &[u8], from: usize) -> (r: usize)
    requires
        from <= s@.len(),
    ensures
        r as int == digit_run(s@, from as int),
        from <= r <= s@.len(),
        forall|k: int| from <= k < r ==> is_digit(#[trigger] s@[k]),
{
    let mut i: usize = from;
    while i < s.len() && byte_is_digit(s[i])
        invariant
            from <= i <= s@.len(),
            digit_run(s@, i as int) == digit_run(s@, from as int),
            forall|k: int| from <= k < i ==> is_digit(#[trigger] s@[k]),
        decreases s@.len() - i,
    {
        i = i + 1;
    }
    i
}

/// Reads an integer of 64 bits with a sign.
pub fn parse_int(s: &[u8]) -> (r: Option<i64>)
    ensures
        match r {
            Some(i) => int_value(s@) == Some(i as int),
            None => int_value(s@) is None,
        },
{
    let n: usize = s.len();
    let signed: bool = n > 0 && (s[0] == PLUS || s[0] == DASH);
    let negative: bool = n > 0 && s[0] == DASH;
    let start: usize = if signed {
        1
    } else {
        0
    };
    let ghost body = s@.subrange(start as int, n as int);
    assert(s@.subrange(0, n as int) =~= s@);
    assert(signed == has_sign(s@));
    if start == n {
        return None;
    }
    let limit: u128 = 9223372036854775808u128;
    let mut acc: u128 = 0;
    let mut over: bool = false;
    let mut i: usize = start;
    while i < n
        invariant
            n == s@.len(),
            start <= i <= n,
            body == s@.subrange(start as int, n as int),
            body == if has_sign(s@) {
                s@.subrange(1, s@.len() as int)
            } else {
                s@
            },
            body.len() > 0,
            negative == (s@[0] == DASH),
            all_digits(body.subrange(0, i - start)),
            limit == 9223372036854775808u128,
            !over ==> acc as nat == digits_value(body.subrange(0, i - start)) && acc <= limit,
            over ==> digits_value(body.subrange(0, i - start)) > limit,
        decreases n - i,
    {
        let b: u8 = s[i];
        if !byte_is_digit(b) {
            proof {
                let k = i - start;
                assert(0 <= k < body.len());
                assert(body[k] == b);
                assert(!is_digit(body[k]));
                assert(!all_digits(body));
            }
            return None;
        }
        proof {
            let p = body.subrange(0, i - start + 1);
            assert(p.drop_last() =~= body.subrange(0, i - start));
            assert(p.last() == b);
            assert forall|k: int| 0 <= k < p.len() implies is_digit(#[trigger] p[k]) by {
                if k < i - start {
                    assert(body.subrange(0, i - start)[k] == p[k]);
                }
            }
        }
        if !over {
            let next: u128 = acc * 10 + (b - DIGIT_0) as u128;
            if next > limit {
                over = true;
            } else {
                acc = next;
            }
        }
        i = i + 1;
    }
    assert(body.subrange(0, n - start) =~= body);
    if over {
        None
    } else if negative {
        if acc == limit {
            Some(i64::MIN)
        } else {
            Some(-(acc as i64))
        }
    } else if acc == limit {
        None
    } else {
        Some(acc as i64)
    }
}

fn float_mark(s: &[u8]) -> (r: bool)
    ensures
        r == has_float_mark(s@),
{
    let mut i: usize = 0;
    while i < s.len()
        invariant
            i <= s@.len(),
            forall|k: int| 0 <= k < i ==> !(#[trigger] s@[k] == DOT || s@[k] == LOWER_E || s@[k] == UPPER_E),
        decreases s@.len() - i,
    {
        let b: u8 = s[i];
        if b == DOT || b == LOWER_E || b == UPPER_E {
            return true;
        }
        i = i + 1;
    }
    false
}

fn number_text(s: &[u8]) -> (r: bool)
    ensures
        r == is_number(s@),
{
    let n: usize = s.len();
    let a: usize = if n > 0 && (s[0] == PLUS || s[0] == DASH) {
        1
    } else {
        0
    };
    let b: usize = digits_end(s, a);
    let pointed: bool = b < n && s[b] == DOT;
    let c: usize = if pointed {
        digits_end(s, b + 1)
    } else {
        b
    };
    let mantissa: bool = if pointed {
        (b - a) + (c - (b + 1)) >= 1
    } else {
        b - a >= 1
    };
    if !mantissa {
        return false;
    }
    if c == n {
        return true;
    }
    if !(s[c] == LOWER_E || s[c] == UPPER_E) {
        return false;
    }
    let d: usize = if c + 1 < n && (s[c + 1] == PLUS || s[c + 1] == DASH) {
        c + 2
    } else {
        c + 1
    };
    let e: usize = digits_end(s, d);
    e > d && e == n
}

/// Reads a floating-point number: says whether the text is one.
pub fn parse_float(s: &[u8]) -> (r: bool)
    ensures
        r == is_float(s@),
{
    float_mark(s) && number_text(s)
}

} // verus!
