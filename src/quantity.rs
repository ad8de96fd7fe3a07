//! The quantity sub-grammar: the text between an annotation's braces, read as
//! an amount and an optional unit separated by `%`.
use vstd::prelude::*;
use crate::lexer::{
    find_back, find_class, is_digit, lemma_scan_back_bounds, lemma_scan_to_bounds, scan_back, scan_to, span_of, Class, Span,
    DASH, DIGIT_ZERO, DOT, SLASH,
};

verus! {

/// The amount of a quantity.
#[derive(Clone, Copy, Debug, PartialEq, Eq, Structural)]
pub enum Amount {
    /// A run of decimal digits.
    Integer(u64),
    /// Digits, `.`, digits: `whole.fraction`, where `fraction` was written
    /// with `scale` digits (so `1.05` has fraction 5 and scale 2).
    Decimal { whole: u64, fraction: u64, scale: usize },
    /// Digits, `/`, digits.
    Fraction(u64, u64),
    /// Digits, `-`, digits.
    Range(u64, u64),
    /// Anything else, kept as the byte range of its text.
    FreeText(Span),
}

/// A parsed brace block: the amount, where its text lies, and the unit's text
/// when one was given.
#[derive(Clone, Copy, Debug, PartialEq, Eq, Structural)]
pub struct Quantity {
    pub amount: Amount,
    pub amount_span: Span,
    pub unit: Option<Span>,
}

/// The value of the decimal digits `s[a..b]`.
pub open spec fn digits_value(s: Seq<u8>, a: int, b: int) -> nat
    decreases b - a,
{
    if b <= a {
        0
    } else {
        digits_value(s, a, b - 1) * 10 + (s[b - 1] as int - DIGIT_ZERO as int) as nat
    }
}

/// The digits `s[a..b]` as a `u64`, when their value fits.
pub open spec fn number_of(s: Seq<u8>, a: int, b: int) -> Option<u64> {
    if digits_value(s, a, b) <= u64::MAX {
        Some(digits_value(s, a, b) as u64)
    } else {
        None
    }
}

/// How the trimmed amount text `s[a..b]` is classified: an integer, then a
/// decimal, a fraction or a range, each side made of digits only; otherwise,
/// or where a number does not fit a `u64`, free text.
pub open spec fn amount_of(s: Seq<u8>, a: int, b: int) -> Amount {
    let d = scan_to(s, a, b, Class::NonDigit);
    let free = Amount::FreeText(span_of(a, b));
    if d == a {
        free
    } else if d == b {
        match number_of(s, a, b) {
            Some(v) => Amount::Integer(v),
            None => free,
        }
    } else if d + 1 == b || scan_to(s, d + 1, b, Class::NonDigit) != b {
        free
    } else {
        match (number_of(s, a, d), number_of(s, d + 1, b)) {
            (Some(x), Some(y)) => if s[d] == DOT {
                Amount::Decimal { whole: x, fraction: y, scale: (b - d - 1) as usize }
            } else if s[d] == SLASH {
                Amount::Fraction(x, y)
            } else if s[d] == DASH {
                Amount::Range(x, y)
            } else {
                free
            },
            _ => free,
        }
    }
}

/// The quantity written as `s[a..b]` (the text between the braces): none when
/// that text is blank; otherwise the amount is the trimmed text before the
/// first `%` (all of it when there is none), and the unit the trimmed text
/// after it, when that is not empty.
pub open spec fn quantity_of(s: Seq<u8>, a: int, b: int) -> Option<Quantity> {
    if scan_to(s, a, b, Class::NonSpace) == b {
        None
    } else {
        let p = scan_to(s, a, b, Class::Percent);
        let am_start = scan_to(s, a, p, Class::NonSpace);
        let am_end = scan_back(s, am_start, p, Class::Space);
        let un_start = scan_to(s, p + 1, b, Class::NonSpace);
        let un_end = scan_back(s, un_start, b, Class::Space);
        let unit = if p < b && un_start < un_end {
            Some(span_of(un_start, un_end))
        } else {
            None
        };
        Some(
            Quantity {
                amount: amount_of(s, am_start, am_end),
                amount_span: span_of(am_start, am_end),
                unit,
            },
        )
    }
}

proof fn lemma_digits_value_monotone(s: Seq<u8>, a: int, k: int, b: int)
    requires
        a <= k <= b,
    ensures
        digits_value(s, a, k) <= digits_value(s, a, b),
    decreases b - k,
{
    if k < b {
        lemma_digits_value_monotone(s, a, k, b - 1);
        assert(digits_value(s, a, b - 1) <= digits_value(s, a, b)) by (nonlinear_arith)
            requires
                b > a,
                digits_value(s, a, b) == digits_value(s, a, b - 1) * 10 + (s[b - 1] as int
                    - DIGIT_ZERO as int) as nat,
        ;
    }
}

/// Reads the digits `s[a..b]` as a `u64`; `None` when the value does not fit.
pub fn parse_number(s: &[u8], a: usize, b: usize) -> (r: Option<u64>)
    requires
        a <= b <= s@.len(),
        forall|k: int| a <= k < b ==> is_digit(#[trigger] s@[k]),
    ensures
        r == number_of(s@, a as int, b as int),
{
    let mut v: u64 = 0;
    let mut k: usize = a;
    while k < b
        invariant
            a <= k <= b <= s@.len(),
            v == digits_value(s@, a as int, k as int),
            forall|j: int| a <= j < b ==> is_digit(#[trigger] s@[j]),
        decreases b - k,
    {
        assert(is_digit(s@[k as int]));
        let d: u64 = (s[k] - DIGIT_ZERO) as u64;
        assert(digits_value(s@, a as int, k + 1) == v * 10 + d);
        if v > (u64::MAX - d) / 10 {
            proof {
                assert(v * 10 + d > u64::MAX) by (nonlinear_arith)
                    requires
                        v > (u64::MAX - d) / 10,
                        d <= 9,
                ;
                lemma_digits_value_monotone(s@, a as int, k + 1, b as int);
            }
            return None;
        }
        assert(v * 10 + d <= u64::MAX) by (nonlinear_arith)
            requires
                v <= (u64::MAX - d) / 10,
                d <= 9,
        ;
        v = v * 10 + d;
        k = k + 1;
    }
    Some(v)
}

/// Classifies the trimmed amount text `s[a..b]`.
pub fn parse_amount(s: &[u8], a: usize, b: usize) -> (r: Amount)
    requires
        a <= b <= s@.len(),
    ensures
        r == amount_of(s@, a as int, b as int),
{
    let d = find_class(s, a, b, Class::NonDigit);
    proof {
        lemma_scan_to_bounds(s@, a as int, b as int, Class::NonDigit);
    }
    let free = Amount::FreeText(Span { start: a, end: b });
    if d == a {
        free
    } else if d == b {
        match parse_number(s, a, b) {
            Some(v) => Amount::Integer(v),
            None => free,
        }
    } else if d + 1 == b {
        free
    } else {
        let e = find_class(s, d + 1, b, Class::NonDigit);
        proof {
            lemma_scan_to_bounds(s@, d + 1, b as int, Class::NonDigit);
        }
        if e != b {
            return free;
        }
        let x = parse_number(s, a, d);
        let y = parse_number(s, d + 1, b);
        match (x, y) {
            (Some(x), Some(y)) => {
                let sep = s[d];
                if sep == DOT {
                    Amount::Decimal { whole: x, fraction: y, scale: b - d - 1 }
                } else if sep == SLASH {
                    Amount::Fraction(x, y)
                } else if sep == DASH {
                    Amount::Range(x, y)
                } else {
                    free
                }
            },
            _ => free,
        }
    }
}

/// Parses the text `s[a..b]` found between an annotation's braces.
pub fn parse_quantity(s: &[u8], a: usize, b: usize) -> (r: Option<Quantity>)
    requires
        a <= b <= s@.len(),
    ensures
        r == quantity_of(s@, a as int, b as int),
{
    let t = find_class(s, a, b, Class::NonSpace);
    if t == b {
        return None;
    }
    let p = find_class(s, a, b, Class::Percent);
    let am_start = find_class(s, a, p, Class::NonSpace);
    let am_end = find_back(s, am_start, p, Class::Space);
    let unit = if p < b {
        let un_start = find_class(s, p + 1, b, Class::NonSpace);
        let un_end = find_back(s, un_start, b, Class::Space);
        if un_start < un_end {
            Some(Span { start: un_start, end: un_end })
        } else {
            None
        }
    } else {
        None
    };
    Some(
        Quantity {
            amount: parse_amount(s, am_start, am_end),
            amount_span: Span { start: am_start, end: am_end },
            unit,
        },
    )
}

/// The amount and the unit of a quantity lie inside `[a, b)`, in that order.
pub proof fn lemma_quantity_bounds(s: Seq<u8>, a: int, b: int)
    requires
        0 <= a <= b <= usize::MAX,
    ensures
        quantity_of(s, a, b) matches Some(q) ==> {
            &&& a <= q.amount_span.start <= q.amount_span.end <= b
            &&& q.unit matches Some(u) ==> q.amount_span.end < u.start < u.end <= b
        },
{
    lemma_scan_to_bounds(s, a, b, Class::Percent);
    let p = scan_to(s, a, b, Class::Percent);
    lemma_scan_to_bounds(s, a, p, Class::NonSpace);
    let am_start = scan_to(s, a, p, Class::NonSpace);
    lemma_scan_back_bounds(s, am_start, p, Class::Space);
    if p < b {
        lemma_scan_to_bounds(s, p + 1, b, Class::NonSpace);
        let un_start = scan_to(s, p + 1, b, Class::NonSpace);
        lemma_scan_back_bounds(s, un_start, b, Class::Space);
    }
}

} // verus!
