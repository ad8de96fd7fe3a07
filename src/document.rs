//! The block grammar: frontmatter, section markers, comment lines, blank
//! lines and steps, and the tree that holds them.
use vstd::prelude::*;
use crate::lexer::{
    find_back, find_class, lemma_scan_to_bounds, scan_back,
    scan_to, span_of, Class, Span, DASH, EQUALS,
};
use crate::inline::{
    annotation_wf, inline_span, items_from, lemma_construct_bounds, lemma_text_end_bounds, parse_step, advance,
    construct_at, text_end, Inline,
};

verus! {

/// The kind of a top-level block.
#[derive(Clone, Copy, Debug, PartialEq, Eq, Structural)]
pub enum BlockKind {
    /// The metadata block fenced by `---` lines at the start of the document.
    Frontmatter,
    /// A line whose first non-blank byte is `=`.
    Section,
    /// A line whose first non-blank bytes are `--`.
    Comment,
    /// A line of whitespace only.
    Blank,
    /// Any other line: prose with annotations.
    Step,
}

/// A top-level block. `span` is the whole range, line break included;
/// `inner` is the frontmatter's body, the section's title, the comment's text,
/// or `span` itself for blank lines and steps; `items` are the elements of a
/// step and are empty for the other kinds.
#[derive(Clone, Debug)]
pub struct Block {
    pub kind: BlockKind,
    pub span: Span,
    pub inner: Span,
    pub items: Vec<Inline>,
}

/// The mathematical value of a [`Block`].
pub struct BlockView {
    pub kind: BlockKind,
    pub span: Span,
    pub inner: Span,
    pub items: Seq<Inline>,
}

impl View for Block {
    type V = BlockView;

    open spec fn view(&self) -> BlockView {
        BlockView { kind: self.kind, span: self.span, inner: self.inner, items: self.items@ }
    }
}

/// The concrete syntax tree of a document: its blocks in source order.
#[derive(Clone, Debug)]
pub struct Tree {
    pub blocks: Vec<Block>,
}

impl View for Tree {
    type V = Seq<BlockView>;

    open spec fn view(&self) -> Seq<BlockView> {
        self.blocks@.map_values(|b: Block| b@)
    }
}

/// Where the line starting at `i` ends, its line break excluded.
pub open spec fn line_end(s: Seq<u8>, i: int) -> int {
    scan_to(s, i, s.len() as int, Class::Newline)
}

/// Where the line after the one starting at `i` starts.
pub open spec fn next_line(s: Seq<u8>, i: int) -> int {
    let e = line_end(s, i);
    if e < s.len() {
        e + 1
    } else {
        e
    }
}

/// The line starting at `i` is `---`, with nothing but trailing whitespace.
pub open spec fn fence_line(s: Seq<u8>, i: int) -> bool {
    let e = line_end(s, i);
    scan_back(s, i, e, Class::Space) == i + 3 && s[i] == DASH && s[i + 1] == DASH && s[i + 2]
        == DASH
}

/// The start of the first fence line at or after `i`, or the end of `s`.
pub open spec fn closing_fence(s: Seq<u8>, i: int) -> int
    decreases s.len() - i,
{
    if i >= s.len() {
        s.len() as int
    } else if fence_line(s, i) {
        i
    } else {
        let n = next_line(s, i);
        if i < n <= s.len() {
            closing_fence(s, n)
        } else {
            s.len() as int
        }
    }
}

/// The block made of the single line starting at `i` (`i` before the end):
/// blank, section marker (checked before comments), comment, or step.
pub open spec fn line_block(s: Seq<u8>, i: int) -> BlockView {
    let e = line_end(s, i);
    let n = next_line(s, i);
    let t = scan_to(s, i, e, Class::NonSpace);
    if t == e {
        BlockView { kind: BlockKind::Blank, span: span_of(i, n), inner: span_of(i, n), items: seq![] }
    } else if s[t] == EQUALS {
        let q = scan_to(s, t, e, Class::NotEquals);
        let ts = scan_to(s, q, e, Class::NonSpace);
        let te = scan_back(s, ts, e, Class::Space);
        BlockView {
            kind: BlockKind::Section,
            span: span_of(i, n),
            inner: span_of(ts, te),
            items: seq![],
        }
    } else if s[t] == DASH && t + 1 < e && s[t + 1] == DASH {
        BlockView { kind: BlockKind::Comment, span: span_of(i, n), inner: span_of(t, e), items: seq![] }
    } else {
        BlockView {
            kind: BlockKind::Step,
            span: span_of(i, n),
            inner: span_of(i, n),
            items: items_from(s, i, n),
        }
    }
}

/// The blocks of `s[i..]`, one per line.
pub open spec fn blocks_from(s: Seq<u8>, i: int) -> Seq<BlockView>
    decreases s.len() - i,
{
    if i >= s.len() {
        seq![]
    } else {
        let n = next_line(s, i);
        if i < n <= s.len() {
            seq![line_block(s, i)] + blocks_from(s, n)
        } else {
            seq![line_block(s, i)]
        }
    }
}

/// The blocks of a whole document. When its first line is a fence and a
/// later fence line closes it, the frontmatter runs from the first fence
/// through the closing one, with the lines between as its body. An opening
/// fence that nothing closes is a step holding one text run.
pub open spec fn blocks_of(s: Seq<u8>) -> Seq<BlockView> {
    let n0 = next_line(s, 0);
    if s.len() > 0 && fence_line(s, 0) {
        let c = closing_fence(s, n0);
        if c < s.len() {
            let n = next_line(s, c);
            seq![
                BlockView {
                    kind: BlockKind::Frontmatter,
                    span: span_of(0, n),
                    inner: span_of(n0, c),
                    items: seq![],
                },
            ] + blocks_from(s, n)
        } else {
            seq![
                BlockView {
                    kind: BlockKind::Step,
                    span: span_of(0, n0),
                    inner: span_of(0, n0),
                    items: seq![Inline::Text(span_of(0, n0))],
                },
            ] + blocks_from(s, n0)
        }
    } else {
        blocks_from(s, 0)
    }
}

pub proof fn lemma_next_line_bounds(s: Seq<u8>, i: int)
    requires
        0 <= i < s.len(),
    ensures
        i <= line_end(s, i) <= s.len(),
        i < next_line(s, i) <= s.len(),
        line_end(s, i) <= next_line(s, i),
{
    lemma_scan_to_bounds(s, i, s.len() as int, Class::Newline);
}

proof fn lemma_closing_fence_bounds(s: Seq<u8>, i: int)
    requires
        0 <= i,
    ensures
        closing_fence(s, i) >= i || closing_fence(s, i) == s.len(),
        closing_fence(s, i) <= s.len(),
        closing_fence(s, i) < s.len() ==> fence_line(s, closing_fence(s, i)),
    decreases s.len() - i,
{
    if i < s.len() && !fence_line(s, i) {
        lemma_next_line_bounds(s, i);
        lemma_closing_fence_bounds(s, next_line(s, i));
    }
}

fn find_line_end(s: &[u8], i: usize) -> (r: usize)
    requires
        i <= s@.len(),
    ensures
        r == line_end(s@, i as int),
        i <= r <= s@.len(),
{
    find_class(s, i, s.len(), Class::Newline)
}

fn find_next_line(s: &[u8], i: usize) -> (r: usize)
    requires
        i < s@.len(),
    ensures
        r == next_line(s@, i as int),
        i < r <= s@.len(),
{
    proof {
        lemma_next_line_bounds(s@, i as int);
    }
    let e = find_line_end(s, i);
    if e < s.len() {
        e + 1
    } else {
        e
    }
}

fn is_fence_line(s: &[u8], i: usize) -> (r: bool)
    requires
        i < s@.len(),
    ensures
        r == fence_line(s@, i as int),
{
    let e = find_line_end(s, i);
    let k = find_back(s, i, e, Class::Space);
    k - i == 3 && s[i] == DASH && s[i + 1] == DASH && s[i + 2] == DASH
}

fn find_closing_fence(s: &[u8], i: usize) -> (r: usize)
    requires
        i <= s@.len(),
    ensures
        r == closing_fence(s@, i as int),
{
    let mut k: usize = i;
    while k < s.len()
        invariant
            i <= k <= s@.len(),
            closing_fence(s@, k as int) == closing_fence(s@, i as int),
        decreases s@.len() - k,
    {
        if is_fence_line(s, k) {
            return k;
        }
        k = find_next_line(s, k);
    }
    s.len()
}

fn scan_line_block(s: &[u8], i: usize) -> (r: Block)
    requires
        i < s@.len(),
    ensures
        r@ == line_block(s@, i as int),
{
    let e = find_line_end(s, i);
    let n = find_next_line(s, i);
    let t = find_class(s, i, e, Class::NonSpace);
    let span = Span { start: i, end: n };
    if t == e {
        Block { kind: BlockKind::Blank, span, inner: span, items: Vec::new() }
    } else if s[t] == EQUALS {
        let q = find_class(s, t, e, Class::NotEquals);
        let ts = find_class(s, q, e, Class::NonSpace);
        let te = find_back(s, ts, e, Class::Space);
        Block {
            kind: BlockKind::Section,
            span,
            inner: Span { start: ts, end: te },
            items: Vec::new(),
        }
    } else if s[t] == DASH && t + 1 < e && s[t + 1] == DASH {
        Block { kind: BlockKind::Comment, span, inner: Span { start: t, end: e }, items: Vec::new() }
    } else {
        let items = parse_step(s, i, n);
        Block { kind: BlockKind::Step, span, inner: span, items }
    }
}

/// Parses a whole document. Every byte sequence is accepted; the blocks tile
/// the input, so the source can always be rebuilt from the tree.
pub fn parse(s: &[u8]) -> (t: Tree)
    ensures
        t@ == blocks_of(s@),
        well_formed(t@, s@.len() as int),
        forall|k: int|
            0 <= k < t.blocks@.len() ==> (#[trigger] t.blocks@[k]).span.start
                <= t.blocks@[k].span.end <= s@.len(),
{
    let len = s.len();
    proof {
        lemma_blocks_of_wf(s@);
    }
    let mut blocks: Vec<Block> = Vec::new();
    let mut i: usize = 0;
    if len > 0 && is_fence_line(s, 0) {
        let n0 = find_next_line(s, 0);
        let c = find_closing_fence(s, n0);
        proof {
            lemma_closing_fence_bounds(s@, n0 as int);
        }
        if c < len {
            let n = find_next_line(s, c);
            let span = Span { start: 0, end: n };
            blocks.push(
                Block {
                    kind: BlockKind::Frontmatter,
                    span,
                    inner: Span { start: n0, end: c },
                    items: Vec::new(),
                },
            );
            i = n;
        } else {
            let span = Span { start: 0, end: n0 };
            let mut items: Vec<Inline> = Vec::new();
            items.push(Inline::Text(span));
            blocks.push(Block { kind: BlockKind::Step, span, inner: span, items });
            i = n0;
        }
        assert(blocks@.map_values(|b: Block| b@) + blocks_from(s@, i as int) =~= blocks_of(s@));
    } else {
        assert(blocks@.map_values(|b: Block| b@) + blocks_from(s@, i as int) =~= blocks_of(s@));
    }
    while i < len
        invariant
            i <= len == s@.len(),
            blocks@.map_values(|b: Block| b@) + blocks_from(s@, i as int) == blocks_of(s@),
        decreases len - i,
    {
        let b = scan_line_block(s, i);
        let n = find_next_line(s, i);
        let ghost rest = blocks_from(s@, n as int);
        let ghost old_blocks = blocks@;
        blocks.push(b);
        assert(blocks@.map_values(|b: Block| b@) =~= old_blocks.map_values(|b: Block| b@).push(
            b@,
        ));
        assert(old_blocks.map_values(|b: Block| b@).push(b@) + rest =~= old_blocks.map_values(
            |b: Block| b@,
        ) + (seq![b@] + rest));
        i = n;
    }
    assert(blocks@.map_values(|b: Block| b@) + blocks_from(s@, i as int) =~= blocks@.map_values(
        |b: Block| b@,
    ));
    let t = Tree { blocks };
    assert forall|k: int| 0 <= k < t.blocks@.len() implies (#[trigger] t.blocks@[k]).span.start
        <= t.blocks@[k].span.end <= s@.len() by {
        assert(block_spans(t@)[k] == t.blocks@[k].span);
        lemma_tiles_within(block_spans(t@), 0, len as int, k);
    }
    t
}

/// The bytes of `s` that the span covers.
pub open spec fn span_bytes(s: Seq<u8>, sp: Span) -> Seq<u8> {
    s.subrange(sp.start as int, sp.end as int)
}

/// The bytes that the spans cover, concatenated in order.
pub open spec fn spans_source(s: Seq<u8>, sps: Seq<Span>) -> Seq<u8>
    decreases sps.len(),
{
    if sps.len() == 0 {
        seq![]
    } else {
        spans_source(s, sps.drop_last()) + span_bytes(s, sps.last())
    }
}

/// The spans tile `[a, b)`: each is non-empty, the first starts at `a`, each
/// ends where the next starts, and the last ends at `b`.
pub open spec fn tiles(sps: Seq<Span>, a: int, b: int) -> bool {
    if sps.len() == 0 {
        a == b
    } else {
        &&& sps[0].start == a
        &&& sps.last().end == b
        &&& forall|k: int| 0 <= k < sps.len() ==> (#[trigger] sps[k]).start < sps[k].end
        &&& forall|k: int| 0 <= k < sps.len() - 1 ==> (#[trigger] sps[k]).end == sps[k + 1].start
    }
}

pub open spec fn block_spans(bs: Seq<BlockView>) -> Seq<Span> {
    bs.map_values(|b: BlockView| b.span)
}

pub open spec fn item_spans(xs: Seq<Inline>) -> Seq<Span> {
    xs.map_values(|x: Inline| inline_span(x))
}

/// The elements tile `[a, b)`, and each annotation among them is well formed.
pub open spec fn items_wf(xs: Seq<Inline>, a: int, b: int) -> bool {
    &&& tiles(item_spans(xs), a, b)
    &&& forall|m: int|
        0 <= m < xs.len() ==> (#[trigger] xs[m] matches Inline::Annotation(an) ==> annotation_wf(
            an,
        ))
}

/// The blocks tile `[0, len)`, the elements of each step tile the step, and
/// each annotation is well formed.
pub open spec fn well_formed(bs: Seq<BlockView>, len: int) -> bool {
    &&& tiles(block_spans(bs), 0, len)
    &&& forall|k: int|
        0 <= k < bs.len() && (#[trigger] bs[k]).kind == BlockKind::Step ==> items_wf(
                bs[k].items,
                bs[k].span.start as int,
                bs[k].span.end as int,
            )
}

/// Spans that tile `[a, b)` cover exactly the bytes `s[a..b]`.
pub proof fn lemma_tiles_source(s: Seq<u8>, sps: Seq<Span>, a: int, b: int)
    requires
        0 <= a <= b <= s.len(),
        tiles(sps, a, b),
    ensures
        spans_source(s, sps) == s.subrange(a, b),
    decreases sps.len(),
{
    if sps.len() == 0 {
        assert(s.subrange(a, b) =~= seq![]);
    } else {
        let init = sps.drop_last();
        let m = sps.last().start as int;
        if init.len() == 0 {
            assert(spans_source(s, init) =~= seq![]);
        } else {
            assert(init.last() == sps[sps.len() - 2]);
            assert(init[0] == sps[0]);
            assert forall|k: int| 0 <= k < init.len() implies (#[trigger] init[k]).start
                < init[k].end by {
                assert(init[k] == sps[k]);
            }
            assert forall|k: int| 0 <= k < init.len() - 1 implies (#[trigger] init[k]).end
                == init[k + 1].start by {
                assert(init[k] == sps[k]);
                assert(init[k + 1] == sps[k + 1]);
            }
            assert(init.last().end == m);
            lemma_tiles_start_le(init, a, m);
            lemma_tiles_source(s, init, a, m);
        }
        assert(sps[sps.len() - 1].start < sps[sps.len() - 1].end);
        assert(s.subrange(a, m) + s.subrange(m, b) =~= s.subrange(a, b));
    }
}

proof fn lemma_tiles_start_le(sps: Seq<Span>, a: int, b: int)
    requires
        tiles(sps, a, b),
    ensures
        a <= b,
    decreases sps.len(),
{
    if sps.len() > 0 {
        let n = sps.len() as int;
        assert forall|k: int| 0 <= k < n implies a <= (#[trigger] sps[k]).start by {
            lemma_tiles_prefix(sps, a, k);
        }
        assert(sps[n - 1].start < sps[n - 1].end);
    }
}

proof fn lemma_tiles_prefix(sps: Seq<Span>, a: int, k: int)
    requires
        sps.len() > 0,
        sps[0].start == a,
        forall|j: int| 0 <= j < sps.len() ==> (#[trigger] sps[j]).start < sps[j].end,
        forall|j: int| 0 <= j < sps.len() - 1 ==> (#[trigger] sps[j]).end == sps[j + 1].start,
        0 <= k < sps.len(),
    ensures
        a <= sps[k].start,
    decreases k,
{
    if k > 0 {
        lemma_tiles_prefix(sps, a, k - 1);
        assert(sps[k - 1].start < sps[k - 1].end);
    }
}

/// Putting a span `[a, m)` in front of spans that tile `[m, b)` tiles `[a, b)`.
pub proof fn lemma_tiles_prepend(sp: Span, rest: Seq<Span>, b: int)
    requires
        sp.start < sp.end,
        tiles(rest, sp.end as int, b),
    ensures
        tiles(seq![sp] + rest, sp.start as int, b),
{
    let t = seq![sp] + rest;
    assert(t[0] == sp);
    if rest.len() > 0 {
        assert(t.last() == rest.last());
        assert forall|k: int| 0 <= k < t.len() implies (#[trigger] t[k]).start < t[k].end by {
            if k > 0 {
                assert(t[k] == rest[k - 1]);
            }
        }
        assert forall|k: int| 0 <= k < t.len() - 1 implies (#[trigger] t[k]).end == t[k
            + 1].start by {
            assert(t[k + 1] == rest[k]);
            if k > 0 {
                assert(t[k] == rest[k - 1]);
            }
        }
    }
}

/// The elements of `s[i..le]` tile `[i, le)`, and each annotation among them
/// is well formed.
pub proof fn lemma_items_tile(s: Seq<u8>, i: int, le: int)
    requires
        0 <= i <= le <= usize::MAX,
    ensures
        items_wf(items_from(s, i, le), i, le),
    decreases le - i,
{
    if i < le {
        lemma_construct_bounds(s, i, le);
        lemma_text_end_bounds(s, advance(s, i, le), le);
        let x = match construct_at(s, i, le) {
            Some(x) => x,
            None => Inline::Text(span_of(i, text_end(s, advance(s, i, le), le))),
        };
        let e = inline_span(x).end as int;
        lemma_items_tile(s, e, le);
        let rest = items_from(s, e, le);
        assert(items_from(s, i, le) == seq![x] + rest);
        assert(item_spans(seq![x] + rest) =~= seq![inline_span(x)] + item_spans(rest));
        lemma_tiles_prepend(inline_span(x), item_spans(rest), le);
        let t = seq![x] + rest;
        assert forall|m: int| 0 <= m < t.len() implies (#[trigger] t[m] matches Inline::Annotation(
            an,
        ) ==> annotation_wf(an)) by {
            if m > 0 {
                assert(t[m] == rest[m - 1]);
            }
        }
    } else {
        assert(item_spans(items_from(s, i, le)) =~= seq![]);
    }
}

proof fn lemma_prepend_block_wf(b: BlockView, rest: Seq<BlockView>, len: int)
    requires
        b.span.start < b.span.end,
        b.kind == BlockKind::Step ==> items_wf(
                b.items,
                b.span.start as int,
                b.span.end as int,
            ),
        tiles(block_spans(rest), b.span.end as int, len),
        forall|k: int|
            0 <= k < rest.len() && (#[trigger] rest[k]).kind == BlockKind::Step ==> items_wf(
                rest[k].items,
                rest[k].span.start as int,
                rest[k].span.end as int,
            ),
    ensures
        tiles(block_spans(seq![b] + rest), b.span.start as int, len),
        forall|k: int|
            0 <= k < (seq![b] + rest).len() && (#[trigger] (seq![b] + rest)[k]).kind
                == BlockKind::Step ==> items_wf(
                (seq![b] + rest)[k].items,
                (seq![b] + rest)[k].span.start as int,
                (seq![b] + rest)[k].span.end as int,
            ),
{
    let t = seq![b] + rest;
    assert(block_spans(t) =~= seq![b.span] + block_spans(rest));
    lemma_tiles_prepend(b.span, block_spans(rest), len);
    assert forall|k: int| 0 <= k < t.len() && (#[trigger] t[k]).kind == BlockKind::Step implies items_wf(
                t[k].items,
                t[k].span.start as int,
                t[k].span.end as int,
            ) by {
        if k > 0 {
            assert(t[k] == rest[k - 1]);
        }
    }
}

/// The blocks of `s[i..]` tile `[i, len)`, and each step's elements are well
/// formed.
pub proof fn lemma_blocks_from_wf(s: Seq<u8>, i: int)
    requires
        0 <= i <= s.len() <= usize::MAX,
    ensures
        tiles(block_spans(blocks_from(s, i)), i, s.len() as int),
        forall|k: int|
            0 <= k < blocks_from(s, i).len() && (#[trigger] blocks_from(s, i)[k]).kind
                == BlockKind::Step ==> items_wf(
                blocks_from(s, i)[k].items,
                blocks_from(s, i)[k].span.start as int,
                blocks_from(s, i)[k].span.end as int,
            ),
    decreases s.len() - i,
{
    if i < s.len() {
        lemma_next_line_bounds(s, i);
        let n = next_line(s, i);
        lemma_items_tile(s, i, n);
        lemma_blocks_from_wf(s, n);
        lemma_prepend_block_wf(line_block(s, i), blocks_from(s, n), s.len() as int);
    } else {
        assert(block_spans(blocks_from(s, i)) =~= seq![]);
    }
}

/// The tree of any document is well formed.
pub proof fn lemma_blocks_of_wf(s: Seq<u8>)
    requires
        s.len() <= usize::MAX,
    ensures
        well_formed(blocks_of(s), s.len() as int),
{
    if s.len() > 0 && fence_line(s, 0) {
        lemma_next_line_bounds(s, 0);
        let n0 = next_line(s, 0);
        lemma_closing_fence_bounds(s, n0);
        let c = closing_fence(s, n0);
        if c < s.len() {
            lemma_next_line_bounds(s, c);
            let n = next_line(s, c);
            lemma_blocks_from_wf(s, n);
            lemma_prepend_block_wf(blocks_of(s)[0], blocks_from(s, n), s.len() as int);
            assert(blocks_of(s) =~= seq![blocks_of(s)[0]] + blocks_from(s, n));
        } else {
            lemma_blocks_from_wf(s, n0);
            let b = blocks_of(s)[0];
            assert(item_spans(b.items) =~= seq![span_of(0, n0)]);
            lemma_prepend_block_wf(b, blocks_from(s, n0), s.len() as int);
            assert(blocks_of(s) =~= seq![b] + blocks_from(s, n0));
        }
    } else {
        lemma_blocks_from_wf(s, 0);
    }
}

/// Each of the spans that tile `[a, b)` lies within `[a, b)`.
pub proof fn lemma_tiles_within(sps: Seq<Span>, a: int, b: int, k: int)
    requires
        tiles(sps, a, b),
        0 <= k < sps.len(),
    ensures
        a <= sps[k].start < sps[k].end <= b,
{
    lemma_tiles_prefix(sps, a, k);
    lemma_tiles_suffix(sps, b, k);
}

proof fn lemma_tiles_suffix(sps: Seq<Span>, b: int, k: int)
    requires
        sps.len() > 0,
        sps.last().end == b,
        forall|j: int| 0 <= j < sps.len() ==> (#[trigger] sps[j]).start < sps[j].end,
        forall|j: int| 0 <= j < sps.len() - 1 ==> (#[trigger] sps[j]).end == sps[j + 1].start,
        0 <= k < sps.len(),
    ensures
        sps[k].end <= b,
    decreases sps.len() - k,
{
    if k < sps.len() - 1 {
        lemma_tiles_suffix(sps, b, k + 1);
        assert(sps[k + 1].start < sps[k + 1].end);
    }
}

/// Concatenates the source bytes that the tree's blocks cover, in order.
pub fn rebuild_source(s: &[u8], t: &Tree) -> (r: Vec<u8>)
    requires
        forall|k: int|
            0 <= k < t.blocks@.len() ==> (#[trigger] t.blocks@[k]).span.start
                <= t.blocks@[k].span.end <= s@.len(),
    ensures
        r@ == spans_source(s@, block_spans(t@)),
{
    let mut r: Vec<u8> = Vec::new();
    let mut k: usize = 0;
    let ghost sps = block_spans(t@);
    while k < t.blocks.len()
        invariant
            k <= t.blocks@.len(),
            sps == block_spans(t@),
            sps.len() == t.blocks@.len(),
            forall|j: int|
                0 <= j < t.blocks@.len() ==> (#[trigger] t.blocks@[j]).span.start
                    <= t.blocks@[j].span.end <= s@.len(),
            r@ == spans_source(s@, sps.take(k as int)),
        decreases t.blocks@.len() - k,
    {
        let sp = t.blocks[k].span;
        assert(sps[k as int] == sp);
        let ghost before = r@;
        let mut p: usize = sp.start;
        while p < sp.end
            invariant
                sp.start <= p <= sp.end <= s@.len(),
                r@ == before + s@.subrange(sp.start as int, p as int),
            decreases sp.end - p,
        {
            r.push(s[p]);
            assert(s@.subrange(sp.start as int, p + 1) =~= s@.subrange(sp.start as int, p as int).push(
                s@[p as int],
            ));
            p = p + 1;
        }
        assert(sps.take(k + 1).drop_last() =~= sps.take(k as int));
        assert(sps.take(k + 1).last() == sp);
        k = k + 1;
    }
    assert(sps.take(k as int) =~= sps);
    r
}

} // verus!
