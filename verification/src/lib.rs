//! Parser for the mog markup language: a block pass that splits the source
//! into lines and builds the block tree, an inline pass that resolves the
//! delimiters inside text, and a fold that moves attribute blocks onto the
//! nodes that own them.

mod block;
pub mod error;
mod inline;
pub mod span;
pub mod text;
pub mod whitespace;
mod node;

use vstd::prelude::*;
use vstd::utf8::*;

pub use node::delimiter::{Delimiter, Delimiters};
pub use node::marker::{Marker, MarkerKind};
pub use node::structural::{StructuralMarker, StructuralMarkerScope};
pub use node::task::{InvalidTaskKind, TaskKind};
pub use error::MogError;
pub use node::kdl::{KdlDiagnosticInfo, KdlFailure};
pub use span::Span;
pub use node::attribute::{parse_attribute_block, Attribute, Attributes, Owned, Value};
pub use node::tree::{
    all_text_resolved, all_unplaced, blocks_in_order, blocks_within, is_block, owned_blocks_in, recorded_before, spans_in_order,
    spans_ordered, trees_in, Node, NodeKind,
};
pub use node::fold::{all_folded, fold_groups, folded_into, folds_list, folds_node, joined_texts, same_trees, text_bytes};

pub use block::step::{blocks_of, Blocks, Held};
pub use inline::step::{inline_nodes, node_resolved, nodes_resolved, Inline};
use crate::block::parse_blocks;
use crate::inline::resolve_nodes;
use crate::node::fold::fold_nodes;

verus! {

#[derive(Debug, PartialEq)]
pub struct Document {
    /// Attributes of the document itself, from the ``attr: blocks at its root.
    pub attributes: Owned,
    pub body: Vec<Node>,
}

/// The document's trees and its own recorded blocks are located in `src`,
/// the nodes at its root in source order, and the attribute blocks there
/// after those it recorded.
pub open spec fn document_in(src: Seq<u8>, d: Document) -> bool {
    &&& trees_in(src, d.body@)
    &&& spans_ordered(d.body@)
    &&& blocks_in_order(d.body@)
    &&& owned_blocks_in(src, d.attributes, None)
    &&& recorded_before(d.attributes, d.body@)
}

/// `body` is the tree of `src` before folding: the block tree that
/// [`blocks_of`] gives, its text resolved by the inline pass with no
/// delimiter open around it, as [`nodes_resolved`] says.
pub open spec fn unfolded_body(src: Seq<u8>, body: Seq<Node>) -> bool {
    exists|blocks: Seq<Node>|
        #![trigger blocks_of(src, blocks)]
        blocks_of(src, blocks) && nodes_resolved(Seq::empty(), blocks, Delimiters(0u16), body)
}

/// `folded` is `d` with its attribute blocks folded into their owners: each
/// node keeps its place with the blocks beneath it folded into its
/// attributes, texts a removed block separated are one again, none is left
/// in the tree, the root ones went to the document, a document located in any
/// source stays so, and one whose text is resolved stays so.
pub open spec fn folds_to(d: Document, folded: Document) -> bool {
    &&& folds_list(d.body@, folded.body@)
    &&& all_folded(folded.body@)
    &&& folded_into(d.attributes, folded.attributes, d.body@)
    &&& forall|src: Seq<u8>| #![trigger document_in(src, folded)] document_in(src, d) ==> document_in(src, folded)
    &&& all_folded(d.body@) ==> same_trees(folded.body@, d.body@) && folded.attributes == d.attributes
    &&& all_text_resolved(d.body@) ==> all_text_resolved(folded.body@)
}

/// Parses `src` and folds each ``attr: block into the node that owns it.
/// Every span describes `src`, every node at the root carries one, and no
/// raw text is left but the content of verbatim nodes.
pub fn parse(src: &str) -> (d: Document)
    ensures
        exists|unfolded: Document|
            #![trigger folds_to(unfolded, d)]
            unfolded.attributes is None && unfolded_body(encode_utf8(src@), unfolded.body@) && folds_to(unfolded, d),
        document_in(encode_utf8(src@), d),
        all_folded(d.body@),
        all_text_resolved(d.body@),
        forall|i: int| 0 <= i < d.body@.len() ==> (#[trigger] d.body@[i]).span is Some,
{
    let unfolded = parse_unfolded(src);
    let ghost u = unfolded;
    let ghost body = unfolded.body@;
    let d = unfolded.fold_attributes();
    proof {
        node::fold::lemma_folds_list_spans(body, d.body@);
    }
    proof {
        assert(folds_to(u, d));
    }
    d
}

/// Parses `src`, leaving each ``attr: block in the tree as an
/// [`NodeKind::Attributes`] node, for tools that rewrite the source.
pub fn parse_unfolded(src: &str) -> (d: Document)
    ensures
        d.attributes is None,
        unfolded_body(encode_utf8(src@), d.body@),
        document_in(encode_utf8(src@), d),
        all_text_resolved(d.body@),
        forall|i: int| 0 <= i < d.body@.len() ==> (#[trigger] d.body@[i]).span is Some,
{
    let blocks = parse_blocks(src);
    let ghost tree = blocks@;
    let body = resolve_nodes(blocks, Delimiters::default());
    proof {
        assert(blocks_of(encode_utf8(src@), tree) && nodes_resolved(Seq::empty(), tree, Delimiters(0u16), body@));
    }
    Document { attributes: None, body }
}

impl Document {
    /// Moves each ``attr: block into its owner: the enclosing node, or the
    /// document for one at the root.
    pub fn fold_attributes(self) -> (d: Document)
        ensures
            folds_to(self, d),
    {
        let Document { attributes, body } = self;
        let mut attributes = attributes;
        let ghost before = body@;
        let body = fold_nodes(body, &mut attributes, Ghost(None));
        let d = Document { attributes, body };
        proof {
            assert forall|src: Seq<u8>| #![trigger document_in(src, d)] document_in(src, self) implies document_in(src, d) by {
                assert(node::fold::fold_ready(src, before, self.attributes, None));
            }
        }
        d
    }
}

/// The blocks recorded in a node's attributes, and in those of every node
/// beneath it, are in source order.
pub open spec fn records_in_order(n: Node) -> bool
    decreases n,
{
    &&& (n.attributes matches Some(a) ==> spans_in_order(a.blocks@))
    &&& forall|i: int| 0 <= i < n.children@.len() ==> records_in_order(#[trigger] n.children@[i])
}

proof fn lemma_records_in_order(src: Seq<u8>, n: Node)
    requires
        n.tree_in(src),
    ensures
        records_in_order(n),
    decreases n,
{
    assert(n.located_in(src));
    assert forall|i: int| 0 <= i < n.children@.len() implies records_in_order(#[trigger] n.children@[i]) by {
        lemma_records_in_order(src, n.children@[i]);
    }
}

/// Every owner in a document located in its source, the document itself or
/// any node, records its attribute blocks in source order: each ends before
/// the next begins.
pub proof fn law_blocks_recorded_in_source_order(src: Seq<u8>, d: Document)
    requires
        document_in(src, d),
    ensures
        d.attributes matches Some(a) ==> spans_in_order(a.blocks@),
        forall|i: int| 0 <= i < d.body@.len() ==> records_in_order(#[trigger] d.body@[i]),
{
    assert forall|i: int| 0 <= i < d.body@.len() implies records_in_order(#[trigger] d.body@[i]) by {
        lemma_records_in_order(src, d.body@[i]);
    }
}

/// Folding is idempotent: a folded document folds to the same trees and
/// attributes.
pub proof fn law_fold_idempotent(d: Document, once: Document, twice: Document)
    requires
        folds_to(d, once),
        folds_to(once, twice),
    ensures
        same_trees(twice.body@, once.body@),
        twice.attributes == once.attributes,
{
}

} // verus!
