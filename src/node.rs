//! The node-kind vocabulary that tools matching on the tree rely on.
use vstd::prelude::*;
use crate::document::BlockKind;
use crate::inline::{AnnotationKind, Inline};

verus! {

/// Every kind of node the tree can hold.
#[derive(Clone, Copy, Debug, PartialEq, Eq, Structural)]
pub enum NodeKind {
    Frontmatter,
    Section,
    Step,
    Blank,
    Ingredient,
    Cookware,
    Timer,
    Quantity,
    Amount,
    Unit,
    Comment,
    Text,
}

/// The stable name of each node kind.
pub open spec fn kind_label(k: NodeKind) -> Seq<char> {
    match k {
        NodeKind::Frontmatter => "frontmatter"@,
        NodeKind::Section => "section"@,
        NodeKind::Step => "step"@,
        NodeKind::Blank => "blank"@,
        NodeKind::Ingredient => "ingredient"@,
        NodeKind::Cookware => "cookware"@,
        NodeKind::Timer => "timer"@,
        NodeKind::Quantity => "quantity"@,
        NodeKind::Amount => "amount"@,
        NodeKind::Unit => "unit"@,
        NodeKind::Comment => "comment"@,
        NodeKind::Text => "text"@,
    }
}

/// The stable name of a node kind.
pub fn node_kind_name(k: NodeKind) -> (r: &'static str)
    ensures
        r@ == kind_label(k),
{
    match k {
        NodeKind::Frontmatter => "frontmatter",
        NodeKind::Section => "section",
        NodeKind::Step => "step",
        NodeKind::Blank => "blank",
        NodeKind::Ingredient => "ingredient",
        NodeKind::Cookware => "cookware",
        NodeKind::Timer => "timer",
        NodeKind::Quantity => "quantity",
        NodeKind::Amount => "amount",
        NodeKind::Unit => "unit",
        NodeKind::Comment => "comment",
        NodeKind::Text => "text",
    }
}

pub open spec fn block_node_kind(b: BlockKind) -> NodeKind {
    match b {
        BlockKind::Frontmatter => NodeKind::Frontmatter,
        BlockKind::Section => NodeKind::Section,
        BlockKind::Comment => NodeKind::Comment,
        BlockKind::Blank => NodeKind::Blank,
        BlockKind::Step => NodeKind::Step,
    }
}

pub open spec fn inline_node_kind(x: Inline) -> NodeKind {
    match x {
        Inline::Text(_) => NodeKind::Text,
        Inline::Comment(_) => NodeKind::Comment,
        Inline::Annotation(a) => match a.kind {
            AnnotationKind::Ingredient => NodeKind::Ingredient,
            AnnotationKind::Cookware => NodeKind::Cookware,
            AnnotationKind::Timer => NodeKind::Timer,
        },
    }
}

/// The node kind of a block.
pub fn kind_of_block(b: BlockKind) -> (r: NodeKind)
    ensures
        r == block_node_kind(b),
{
    match b {
        BlockKind::Frontmatter => NodeKind::Frontmatter,
        BlockKind::Section => NodeKind::Section,
        BlockKind::Comment => NodeKind::Comment,
        BlockKind::Blank => NodeKind::Blank,
        BlockKind::Step => NodeKind::Step,
    }
}

/// The node kind of a step element.
pub fn kind_of_inline(x: &Inline) -> (r: NodeKind)
    ensures
        r == inline_node_kind(*x),
{
    match x {
        Inline::Text(_) => NodeKind::Text,
        Inline::Comment(_) => NodeKind::Comment,
        Inline::Annotation(a) => match a.kind {
            AnnotationKind::Ingredient => NodeKind::Ingredient,
            AnnotationKind::Cookware => NodeKind::Cookware,
            AnnotationKind::Timer => NodeKind::Timer,
        },
    }
}

} // verus!
