//! What holds of every parse.
use vstd::prelude::*;
use crate::document::{
    block_spans, blocks_of, item_spans, lemma_blocks_of_wf, lemma_tiles_source, lemma_tiles_within,
    span_bytes, spans_source, BlockKind,
};

verus! {

/// Losslessness: concatenating the bytes that the document's blocks cover, in
/// order, gives back the document exactly; and the elements of each step,
/// concatenated in order, give back that step's bytes.
pub proof fn law_lossless(s: Seq<u8>)
    requires
        s.len() <= usize::MAX,
    ensures
        spans_source(s, block_spans(blocks_of(s))) == s,
        forall|k: int|
            0 <= k < blocks_of(s).len() && (#[trigger] blocks_of(s)[k]).kind == BlockKind::Step
                ==> spans_source(s, item_spans(blocks_of(s)[k].items)) == span_bytes(
                s,
                blocks_of(s)[k].span,
            ),
{
    let bs = blocks_of(s);
    lemma_blocks_of_wf(s);
    lemma_tiles_source(s, block_spans(bs), 0, s.len() as int);
    assert(s.subrange(0, s.len() as int) =~= s);
    assert forall|k: int| 0 <= k < bs.len() && (#[trigger] bs[k]).kind == BlockKind::Step implies spans_source(
        s,
        item_spans(bs[k].items),
    ) == span_bytes(s, bs[k].span) by {
        lemma_tiles_within(block_spans(bs), 0, s.len() as int, k);
        lemma_tiles_source(s, item_spans(bs[k].items), bs[k].span.start as int, bs[k].span.end as int);
    }
}

/// Idempotence: parsing the bytes rebuilt from a document's tree gives the
/// same tree again.
pub proof fn law_reparse_identical(s: Seq<u8>)
    requires
        s.len() <= usize::MAX,
    ensures
        blocks_of(spans_source(s, block_spans(blocks_of(s)))) == blocks_of(s),
{
    law_lossless(s);
}

} // verus!
