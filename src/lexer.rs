//! Byte classes and position scanners over the source buffer.
use vstd::prelude::*;

verus! {

pub const NEWLINE: u8 = 10;
pub const SPACE: u8 = 32;
pub const TAB: u8 = 9;
pub const RETURN: u8 = 13;
pub const AT: u8 = 64;
pub const HASH: u8 = 35;
pub const TILDE: u8 = 126;
pub const OPEN_BRACE: u8 = 123;
pub const CLOSE_BRACE: u8 = 125;
pub const PERCENT: u8 = 37;
pub const DASH: u8 = 45;
pub const DOT: u8 = 46;
pub const SLASH: u8 = 47;
pub const EQUALS: u8 = 61;
pub const OPEN_BRACKET: u8 = 91;
pub const CLOSE_BRACKET: u8 = 93;
pub const BACKSLASH: u8 = 92;
pub const DIGIT_ZERO: u8 = 48;
pub const DIGIT_NINE: u8 = 57;

/// A half-open byte range `[start, end)` of the source buffer.
#[derive(Clone, Copy, Debug, PartialEq, Eq, Structural)]
pub struct Span {
    pub start: usize,
    pub end: usize,
}

/// Builds the span `[a, b)` from spec positions.
pub open spec fn span_of(a: int, b: int) -> Span {
    Span { start: a as usize, end: b as usize }
}

pub open spec fn is_ws(b: u8) -> bool {
    b == SPACE || b == TAB || b == RETURN || b == NEWLINE
}

pub open spec fn is_sigil(b: u8) -> bool {
    b == AT || b == HASH || b == TILDE
}

pub open spec fn is_digit(b: u8) -> bool {
    DIGIT_ZERO <= b <= DIGIT_NINE
}

/// ASCII punctuation: the printable characters that are neither letters,
/// digits nor space.
pub open spec fn is_punct(b: u8) -> bool {
    (33 <= b <= 47) || (58 <= b <= 64) || (91 <= b <= 96) || (123 <= b <= 126)
}

/// The byte classes that the scanners stop at.
#[derive(Clone, Copy, Debug, PartialEq, Eq, Structural)]
pub enum Class {
    /// A line break.
    Newline,
    /// Where a braced, possibly multi-word, annotation name must end: a line
    /// break, a sigil, a brace or `%`.
    NameStop,
    /// Where a bare annotation name ends: whitespace, a sigil, a brace or `%`.
    WordStop,
    /// A closing brace or a line break.
    BraceStop,
    /// The amount/unit separator `%`.
    Percent,
    /// Any byte that is not a decimal digit.
    NonDigit,
    /// Any byte that is not whitespace.
    NonSpace,
    /// Whitespace.
    Space,
    /// ASCII punctuation.
    Punct,
    /// Any byte but `=`.
    NotEquals,
}

pub open spec fn in_class(c: Class, b: u8) -> bool {
    match c {
        Class::Newline => b == NEWLINE,
        Class::NameStop => b == NEWLINE || is_sigil(b) || b == OPEN_BRACE || b == CLOSE_BRACE
            || b == PERCENT,
        Class::WordStop => is_ws(b) || is_sigil(b) || b == OPEN_BRACE || b == CLOSE_BRACE || b
            == PERCENT,
        Class::BraceStop => b == CLOSE_BRACE || b == NEWLINE,
        Class::Percent => b == PERCENT,
        Class::NonDigit => !is_digit(b),
        Class::NonSpace => !is_ws(b),
        Class::Space => is_ws(b),
        Class::Punct => is_punct(b),
        Class::NotEquals => b != EQUALS,
    }
}

pub fn byte_in_class(c: Class, b: u8) -> (r: bool)
    ensures
        r == in_class(c, b),
{
    match c {
        Class::Newline => b == NEWLINE,
        Class::NameStop => b == NEWLINE || b == AT || b == HASH || b == TILDE || b == OPEN_BRACE
            || b == CLOSE_BRACE || b == PERCENT,
        Class::WordStop => b == SPACE || b == TAB || b == RETURN || b == NEWLINE || b == AT || b
            == HASH || b == TILDE || b == OPEN_BRACE || b == CLOSE_BRACE || b == PERCENT,
        Class::BraceStop => b == CLOSE_BRACE || b == NEWLINE,
        Class::Percent => b == PERCENT,
        Class::NonDigit => !(DIGIT_ZERO <= b && b <= DIGIT_NINE),
        Class::NonSpace => !(b == SPACE || b == TAB || b == RETURN || b == NEWLINE),
        Class::Space => b == SPACE || b == TAB || b == RETURN || b == NEWLINE,
        Class::Punct => (33 <= b && b <= 47) || (58 <= b && b <= 64) || (91 <= b && b <= 96) || (
        123 <= b && b <= 126),
        Class::NotEquals => b != EQUALS,
    }
}

/// The first position `k` in `[i, hi)` whose byte is in class `c`, or `hi`
/// when there is none.
pub open spec fn scan_to(s: Seq<u8>, i: int, hi: int, c: Class) -> int
    decreases hi - i,
{
    if i >= hi {
        hi
    } else if in_class(c, s[i]) {
        i
    } else {
        scan_to(s, i + 1, hi, c)
    }
}

/// The smallest `k` in `[lo, hi]` such that every byte of `[k, hi)` is in
/// class `c`: `hi` with the trailing run of `c` bytes cut off.
pub open spec fn scan_back(s: Seq<u8>, lo: int, hi: int, c: Class) -> int
    decreases hi - lo,
{
    if hi <= lo {
        lo
    } else if in_class(c, s[hi - 1]) {
        scan_back(s, lo, hi - 1, c)
    } else {
        hi
    }
}

pub proof fn lemma_scan_to_bounds(s: Seq<u8>, i: int, hi: int, c: Class)
    requires
        i <= hi,
    ensures
        i <= scan_to(s, i, hi, c) <= hi,
        scan_to(s, i, hi, c) < hi ==> in_class(c, s[scan_to(s, i, hi, c)]),
        forall|k: int| i <= k < scan_to(s, i, hi, c) ==> !in_class(c, #[trigger] s[k]),
    decreases hi - i,
{
    if i < hi && !in_class(c, s[i]) {
        lemma_scan_to_bounds(s, i + 1, hi, c);
    }
}

pub proof fn lemma_scan_back_bounds(s: Seq<u8>, lo: int, hi: int, c: Class)
    requires
        lo <= hi,
    ensures
        lo <= scan_back(s, lo, hi, c) <= hi,
        forall|k: int| scan_back(s, lo, hi, c) <= k < hi ==> in_class(c, #[trigger] s[k]),
    decreases hi - lo,
{
    if hi > lo && in_class(c, s[hi - 1]) {
        lemma_scan_back_bounds(s, lo, hi - 1, c);
    }
}

/// Finds the first byte of class `c` in `s[i..hi]`.
pub fn find_class(s: &[u8], i: usize, hi: usize, c: Class) -> (r: usize)
    requires
        i <= hi <= s@.len(),
    ensures
        r == scan_to(s@, i as int, hi as int, c),
        i <= r <= hi,
{
    proof {
        lemma_scan_to_bounds(s@, i as int, hi as int, c);
    }
    let mut k: usize = i;
    while k < hi
        invariant
            i <= k <= hi,
            hi <= s@.len(),
            scan_to(s@, k as int, hi as int, c) == scan_to(s@, i as int, hi as int, c),
        decreases hi - k,
    {
        if byte_in_class(c, s[k]) {
            return k;
        }
        k = k + 1;
    }
    k
}

/// Cuts the trailing run of class-`c` bytes off `s[lo..hi]`.
pub fn find_back(s: &[u8], lo: usize, hi: usize, c: Class) -> (r: usize)
    requires
        lo <= hi <= s@.len(),
    ensures
        r == scan_back(s@, lo as int, hi as int, c),
        lo <= r <= hi,
{
    proof {
        lemma_scan_back_bounds(s@, lo as int, hi as int, c);
    }
    let mut k: usize = hi;
    while k > lo
        invariant
            lo <= k <= hi,
            hi <= s@.len(),
            scan_back(s@, lo as int, k as int, c) == scan_back(s@, lo as int, hi as int, c),
        decreases k - lo,
    {
        if !byte_in_class(c, s[k - 1]) {
            return k;
        }
        k = k - 1;
    }
    k
}

} // verus!
