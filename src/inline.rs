//! The annotation grammar and the scanner of a step's inline elements.
use vstd::prelude::*;
use crate::lexer::{
    byte_in_class, find_back, find_class, is_sigil, is_ws, lemma_scan_back_bounds,
    lemma_scan_to_bounds, scan_back, scan_to, span_of, Class, Span, AT, BACKSLASH, CLOSE_BRACE,
    CLOSE_BRACKET, DASH, HASH, OPEN_BRACE, OPEN_BRACKET, TILDE,
};
use crate::quantity::{lemma_quantity_bounds, parse_quantity, quantity_of, Quantity};

verus! {

/// What an annotation refers to, chosen by its sigil.
#[derive(Clone, Copy, Debug, PartialEq, Eq, Structural)]
pub enum AnnotationKind {
    /// `@`
    Ingredient,
    /// `#`
    Cookware,
    /// `~`
    Timer,
}

/// An annotation: its kind, the range it covers (sigil, name and braces),
/// the range of its name, and the quantity read from its braces.
#[derive(Clone, Copy, Debug, PartialEq, Eq, Structural)]
pub struct Annotation {
    pub kind: AnnotationKind,
    pub span: Span,
    pub name: Span,
    pub quantity: Option<Quantity>,
}

/// An element of a step: a run of plain text, an annotation, or a comment
/// (`-- ...` to the end of the line, or `[- ... -]`).
#[derive(Clone, Copy, Debug, PartialEq, Eq, Structural)]
pub enum Inline {
    Text(Span),
    Annotation(Annotation),
    Comment(Span),
}

pub open spec fn inline_span(x: Inline) -> Span {
    match x {
        Inline::Text(sp) => sp,
        Inline::Annotation(a) => a.span,
        Inline::Comment(sp) => sp,
    }
}

/// The name starts right after the sigil and ends inside the annotation; a
/// quantity's amount and unit lie after the name and inside the annotation,
/// in that order.
pub open spec fn annotation_wf(a: Annotation) -> bool {
    &&& a.name.start == a.span.start + 1
    &&& a.name.start <= a.name.end <= a.span.end
    &&& a.quantity matches Some(q) ==> {
        &&& a.name.end < q.amount_span.start <= q.amount_span.end < a.span.end
        &&& q.unit matches Some(u) ==> q.amount_span.end < u.start < u.end < a.span.end
    }
}

pub open spec fn kind_of(b: u8) -> AnnotationKind {
    if b == TILDE {
        AnnotationKind::Timer
    } else if b == HASH {
        AnnotationKind::Cookware
    } else {
        AnnotationKind::Ingredient
    }
}

/// The braced form at the sigil `s[i]`: a name running up to a `{` (with no
/// line break, sigil, brace or `%` before it, and not starting with
/// whitespace), then everything up to the first `}` on the line. An empty
/// name is taken only where `empty_name` allows it.
pub open spec fn braced_at(s: Seq<u8>, i: int, le: int, empty_name: bool) -> Option<Annotation> {
    let j = scan_to(s, i + 1, le, Class::NameStop);
    let name_ok = if j == i + 1 {
        empty_name
    } else {
        !is_ws(s[i + 1])
    };
    if j < le && s[j] == OPEN_BRACE && name_ok {
        let k = scan_to(s, j + 1, le, Class::BraceStop);
        if k < le && s[k] == CLOSE_BRACE {
            Some(
                Annotation {
                    kind: kind_of(s[i]),
                    span: span_of(i, k + 1),
                    name: span_of(i + 1, j),
                    quantity: quantity_of(s, j + 1, k),
                },
            )
        } else {
            None
        }
    } else {
        None
    }
}

/// The bare form at the sigil `s[i]`: one word, up to whitespace, a sigil, a
/// brace or `%`, without its trailing punctuation; none when that is empty.
pub open spec fn bare_at(s: Seq<u8>, i: int, le: int) -> Option<Annotation> {
    let w = scan_to(s, i + 1, le, Class::WordStop);
    let n = scan_back(s, i + 1, w, Class::Punct);
    if n > i + 1 {
        Some(
            Annotation {
                kind: kind_of(s[i]),
                span: span_of(i, n),
                name: span_of(i + 1, n),
                quantity: None,
            },
        )
    } else {
        None
    }
}

/// The annotation that starts at `s[i]`, within the line ending at `le`.
/// A timer needs braces holding a quantity and may have an empty name; an
/// ingredient or cookware item takes the braced form with a non-empty name,
/// else the bare form.
pub open spec fn annotation_at(s: Seq<u8>, i: int, le: int) -> Option<Annotation> {
    if s[i] == TILDE {
        match braced_at(s, i, le, true) {
            Some(a) => if a.quantity.is_some() {
                Some(a)
            } else {
                None
            },
            None => None,
        }
    } else if s[i] == AT || s[i] == HASH {
        match braced_at(s, i, le, false) {
            Some(a) => Some(a),
            None => bare_at(s, i, le),
        }
    } else {
        None
    }
}

/// The first `k` in `[i, le - 1)` where `-]` starts, or `le`.
pub open spec fn comment_close(s: Seq<u8>, i: int, le: int) -> int
    decreases le - i,
{
    if i + 1 >= le {
        le
    } else if s[i] == DASH && s[i + 1] == CLOSE_BRACKET {
        i
    } else {
        comment_close(s, i + 1, le)
    }
}

/// The element other than text that starts at `s[i]`, if any.
pub open spec fn construct_at(s: Seq<u8>, i: int, le: int) -> Option<Inline> {
    if is_sigil(s[i]) {
        match annotation_at(s, i, le) {
            Some(a) => Some(Inline::Annotation(a)),
            None => None,
        }
    } else if s[i] == DASH && i + 1 < le && s[i + 1] == DASH {
        Some(Inline::Comment(span_of(i, le)))
    } else if s[i] == OPEN_BRACKET && i + 1 < le && s[i + 1] == DASH {
        let k = comment_close(s, i + 2, le);
        if k < le {
            Some(Inline::Comment(span_of(i, k + 2)))
        } else {
            None
        }
    } else {
        None
    }
}

/// One step over plain text: a backslash takes the byte after it along.
pub open spec fn advance(s: Seq<u8>, k: int, le: int) -> int {
    if s[k] == BACKSLASH && k + 1 < le {
        k + 2
    } else {
        k + 1
    }
}

/// Where the text run that has reached `k` ends: at the next element or at
/// `le`.
pub open spec fn text_end(s: Seq<u8>, k: int, le: int) -> int
    decreases le - k,
{
    if k >= le {
        le
    } else if construct_at(s, k, le).is_some() {
        k
    } else {
        text_end(s, advance(s, k, le), le)
    }
}

/// The elements of `s[i..le]`, in source order.
pub open spec fn items_from(s: Seq<u8>, i: int, le: int) -> Seq<Inline>
    decreases le - i,
{
    if i >= le {
        seq![]
    } else {
        let x = match construct_at(s, i, le) {
            Some(x) => x,
            None => Inline::Text(span_of(i, text_end(s, advance(s, i, le), le))),
        };
        let e = inline_span(x).end as int;
        if i < e <= le {
            seq![x] + items_from(s, e, le)
        } else {
            seq![x]
        }
    }
}

proof fn lemma_comment_close_bounds(s: Seq<u8>, i: int, le: int)
    requires
        i <= le,
    ensures
        i <= comment_close(s, i, le) <= le,
        comment_close(s, i, le) < le ==> comment_close(s, i, le) + 1 < le,
    decreases le - i,
{
    if i + 1 < le && !(s[i] == DASH && s[i + 1] == CLOSE_BRACKET) {
        lemma_comment_close_bounds(s, i + 1, le);
    }
}

/// An element found at `i` covers `[i, e)` for some `e` in `(i, le]`.
pub proof fn lemma_construct_bounds(s: Seq<u8>, i: int, le: int)
    requires
        0 <= i < le <= usize::MAX,
    ensures
        construct_at(s, i, le) matches Some(x) ==> inline_span(x).start == i && i
            < inline_span(x).end <= le,
        construct_at(s, i, le) matches Some(Inline::Annotation(a)) ==> annotation_wf(a),
{
    lemma_scan_to_bounds(s, i + 1, le, Class::NameStop);
    let j = scan_to(s, i + 1, le, Class::NameStop);
    if j < le {
        lemma_scan_to_bounds(s, j + 1, le, Class::BraceStop);
        let k = scan_to(s, j + 1, le, Class::BraceStop);
        lemma_quantity_bounds(s, j + 1, k);
    }
    lemma_scan_to_bounds(s, i + 1, le, Class::WordStop);
    let w = scan_to(s, i + 1, le, Class::WordStop);
    lemma_scan_back_bounds(s, i + 1, w, Class::Punct);
    if i + 2 <= le {
        lemma_comment_close_bounds(s, i + 2, le);
    }
}

/// A text run that has reached `k` ends no earlier than `k` and no later than
/// `le`.
pub proof fn lemma_text_end_bounds(s: Seq<u8>, k: int, le: int)
    requires
        k <= le,
    ensures
        k <= text_end(s, k, le) <= le,
    decreases le - k,
{
    if k < le && construct_at(s, k, le).is_none() {
        lemma_text_end_bounds(s, advance(s, k, le), le);
    }
}

fn kind_for(b: u8) -> (r: AnnotationKind)
    ensures
        r == kind_of(b),
{
    if b == TILDE {
        AnnotationKind::Timer
    } else if b == HASH {
        AnnotationKind::Cookware
    } else {
        AnnotationKind::Ingredient
    }
}

fn scan_braced(s: &[u8], i: usize, le: usize, empty_name: bool) -> (r: Option<Annotation>)
    requires
        i < le <= s@.len(),
    ensures
        r == braced_at(s@, i as int, le as int, empty_name),
{
    let j = find_class(s, i + 1, le, Class::NameStop);
    let name_ok = if j == i + 1 {
        empty_name
    } else {
        !byte_in_class(Class::Space, s[i + 1])
    };
    if j < le && s[j] == OPEN_BRACE && name_ok {
        let k = find_class(s, j + 1, le, Class::BraceStop);
        if k < le && s[k] == CLOSE_BRACE {
            Some(
                Annotation {
                    kind: kind_for(s[i]),
                    span: Span { start: i, end: k + 1 },
                    name: Span { start: i + 1, end: j },
                    quantity: parse_quantity(s, j + 1, k),
                },
            )
        } else {
            None
        }
    } else {
        None
    }
}

fn scan_bare(s: &[u8], i: usize, le: usize) -> (r: Option<Annotation>)
    requires
        i < le <= s@.len(),
    ensures
        r == bare_at(s@, i as int, le as int),
{
    let w = find_class(s, i + 1, le, Class::WordStop);
    let n = find_back(s, i + 1, w, Class::Punct);
    if n > i + 1 {
        Some(
            Annotation {
                kind: kind_for(s[i]),
                span: Span { start: i, end: n },
                name: Span { start: i + 1, end: n },
                quantity: None,
            },
        )
    } else {
        None
    }
}

/// Reads the annotation whose sigil is `s[i]`, within the line `s[..le]`.
pub fn scan_annotation(s: &[u8], i: usize, le: usize) -> (r: Option<Annotation>)
    requires
        i < le <= s@.len(),
    ensures
        r == annotation_at(s@, i as int, le as int),
{
    let b = s[i];
    if b == TILDE {
        match scan_braced(s, i, le, true) {
            Some(a) => if a.quantity.is_some() {
                Some(a)
            } else {
                None
            },
            None => None,
        }
    } else if b == AT || b == HASH {
        match scan_braced(s, i, le, false) {
            Some(a) => Some(a),
            None => scan_bare(s, i, le),
        }
    } else {
        None
    }
}

fn find_comment_close(s: &[u8], i: usize, le: usize) -> (r: usize)
    requires
        i <= le <= s@.len(),
    ensures
        r == comment_close(s@, i as int, le as int),
{
    let mut k: usize = i;
    while le - k > 1
        invariant
            i <= k <= le <= s@.len(),
            comment_close(s@, k as int, le as int) == comment_close(s@, i as int, le as int),
        decreases le - k,
    {
        if s[k] == DASH && s[k + 1] == CLOSE_BRACKET {
            return k;
        }
        k = k + 1;
    }
    le
}

fn scan_construct(s: &[u8], i: usize, le: usize) -> (r: Option<Inline>)
    requires
        i < le <= s@.len(),
    ensures
        r == construct_at(s@, i as int, le as int),
{
    let b = s[i];
    if b == AT || b == HASH || b == TILDE {
        match scan_annotation(s, i, le) {
            Some(a) => Some(Inline::Annotation(a)),
            None => None,
        }
    } else if b == DASH && i + 1 < le && s[i + 1] == DASH {
        Some(Inline::Comment(Span { start: i, end: le }))
    } else if b == OPEN_BRACKET && i + 1 < le && s[i + 1] == DASH {
        let k = find_comment_close(s, i + 2, le);
        proof {
            lemma_comment_close_bounds(s@, i + 2, le as int);
        }
        if k < le {
            Some(Inline::Comment(Span { start: i, end: k + 2 }))
        } else {
            None
        }
    } else {
        None
    }
}

fn step_over(s: &[u8], k: usize, le: usize) -> (r: usize)
    requires
        k < le <= s@.len(),
    ensures
        r == advance(s@, k as int, le as int),
        k < r <= le,
{
    if s[k] == BACKSLASH && k + 1 < le {
        k + 2
    } else {
        k + 1
    }
}

fn scan_text(s: &[u8], k: usize, le: usize) -> (r: usize)
    requires
        k <= le <= s@.len(),
    ensures
        r == text_end(s@, k as int, le as int),
{
    let mut p: usize = k;
    while p < le
        invariant
            k <= p <= le <= s@.len(),
            text_end(s@, p as int, le as int) == text_end(s@, k as int, le as int),
        decreases le - p,
    {
        if scan_construct(s, p, le).is_some() {
            return p;
        }
        p = step_over(s, p, le);
    }
    le
}

/// Splits the step text `s[ls..le]` into its elements, in source order.
pub fn parse_step(s: &[u8], ls: usize, le: usize) -> (r: Vec<Inline>)
    requires
        ls <= le <= s@.len(),
    ensures
        r@ == items_from(s@, ls as int, le as int),
{
    let mut items: Vec<Inline> = Vec::new();
    let mut i: usize = ls;
    while i < le
        invariant
            ls <= i <= le <= s@.len(),
            items@ + items_from(s@, i as int, le as int) == items_from(s@, ls as int, le as int),
        decreases le - i,
    {
        proof {
            lemma_construct_bounds(s@, i as int, le as int);
        }
        let x = match scan_construct(s, i, le) {
            Some(x) => x,
            None => {
                let a = step_over(s, i, le);
                let k = scan_text(s, a, le);
                proof {
                    lemma_text_end_bounds(s@, a as int, le as int);
                }
                Inline::Text(Span { start: i, end: k })
            },
        };
        let e = match x {
            Inline::Text(sp) => sp.end,
            Inline::Annotation(a) => a.span.end,
            Inline::Comment(sp) => sp.end,
        };
        let ghost rest = items_from(s@, e as int, le as int);
        assert(items_from(s@, i as int, le as int) == seq![x] + rest);
        assert(items@.push(x) + rest =~= items@ + (seq![x] + rest));
        items.push(x);
        i = e;
    }
    assert(items@ + items_from(s@, i as int, le as int) =~= items@);
    items
}

} // verus!
