//! Which inline node attaches to the one before it.

use vstd::prelude::*;

use crate::node::delimiter::Delimiter;
use crate::node::tree::{
    all_text_resolved, all_unplaced, blocks_in_order, blocks_within, is_block, spans_ordered, trees_in, Node, NodeKind,
};

verus! {

/// A link name or footnote attaches to a preceding link, a footnote to a
/// preceding link name; a link is already rewritten to [`NodeKind::Link`] by
/// the time it is pushed, so both spellings count.
pub open spec fn attaches_spec(previous: NodeKind, node: NodeKind) -> bool {
    match (previous, node) {
        (NodeKind::Link(_), NodeKind::Delimiter(Delimiter::LinkName)) => true,
        (NodeKind::Link(_), NodeKind::Delimiter(Delimiter::Footnote)) => true,
        (NodeKind::Delimiter(Delimiter::Link), NodeKind::Delimiter(Delimiter::LinkName)) => true,
        (NodeKind::Delimiter(Delimiter::Link), NodeKind::Delimiter(Delimiter::Footnote)) => true,
        (NodeKind::Delimiter(Delimiter::LinkName), NodeKind::Delimiter(Delimiter::Footnote)) => true,
        _ => false,
    }
}

fn attaches(previous: &NodeKind, node: &NodeKind) -> (r: bool)
    ensures
        r == attaches_spec(*previous, *node),
{
    match (previous, node) {
        (NodeKind::Link(_), NodeKind::Delimiter(Delimiter::LinkName)) => true,
        (NodeKind::Link(_), NodeKind::Delimiter(Delimiter::Footnote)) => true,
        (NodeKind::Delimiter(Delimiter::Link), NodeKind::Delimiter(Delimiter::LinkName)) => true,
        (NodeKind::Delimiter(Delimiter::Link), NodeKind::Delimiter(Delimiter::Footnote)) => true,
        (NodeKind::Delimiter(Delimiter::LinkName), NodeKind::Delimiter(Delimiter::Footnote)) => true,
        _ => false,
    }
}

/// The last of `nodes` that is content: attribute nodes describe their
/// parent, so they are skipped over.
pub open spec fn last_content(nodes: Seq<Node>) -> Option<int>
    decreases nodes.len(),
{
    if nodes.len() == 0 {
        None
    } else if !(nodes.last().kind is Attributes) {
        Some(nodes.len() - 1)
    } else {
        last_content(nodes.drop_last())
    }
}

pub proof fn lemma_last_content(nodes: Seq<Node>, i: int)
    requires
        -1 <= i < nodes.len(),
        forall|k: int| i < k < nodes.len() ==> (#[trigger] nodes[k]).kind is Attributes,
    ensures
        i >= 0 && !(nodes[i].kind is Attributes) ==> last_content(nodes) == Some(i),
        i == -1 ==> last_content(nodes) is None,
    decreases nodes.len(),
{
    if nodes.len() > 0 && i < nodes.len() - 1 {
        let shorter = nodes.drop_last();
        assert forall|k: int| i < k < shorter.len() implies (#[trigger] shorter[k]).kind is Attributes by {
            assert(shorter[k] == nodes[k]);
        }
        lemma_last_content(shorter, i);
        if i >= 0 {
            assert(shorter[i] == nodes[i]);
        }
    }
}

/// `nodes` once `node` is pushed onto them: it becomes a child of the last
/// content node where it attaches to that one, and follows it otherwise.
pub open spec fn pushed_resolved(before: Seq<Node>, node: Node, after: Seq<Node>) -> bool {
    match last_content(before) {
        Some(j) if attaches_spec(before[j].kind, node.kind) => {
            &&& after.len() == before.len()
            &&& forall|k: int| 0 <= k < before.len() && k != j ==> after[k] == before[k]
            &&& after[j].kind == before[j].kind
            &&& after[j].attributes == before[j].attributes
            &&& after[j].span == before[j].span
            &&& after[j].fence == before[j].fence
            &&& after[j].children@ == before[j].children@.push(node)
        },
        _ => after == before.push(node),
    }
}

/// Where `node` attaches to the last content node of `before`, the children
/// of that node with a span end before `node` begins.
pub open spec fn attach_ready(before: Seq<Node>, node: Node) -> bool {
    match last_content(before) {
        Some(j) => attaches_spec(before[j].kind, node.kind) && node.span is Some ==> forall|k: int|
            0 <= k < before[j].children@.len() && (#[trigger] before[j].children@[k]).span is Some
                ==> before[j].children@[k].span.unwrap().end < node.span.unwrap().start,
        None => true,
    }
}

/// What pushing keeps: trees located in any source stay located, the
/// attribute blocks stay within any owner, and trees without positions stay
/// so.
pub proof fn lemma_pushed_keeps(before: Seq<Node>, node: Node, after: Seq<Node>)
    requires
        pushed_resolved(before, node, after),
    ensures
        forall|src: Seq<u8>|
            #![trigger trees_in(src, after)]
            trees_in(src, before) && node.tree_in(src) && attach_ready(before, node) ==> trees_in(src, after),
        forall|o: Option<crate::span::Span>|
            #![trigger blocks_within(o, after)]
            blocks_within(o, before) && blocks_within(o, seq![node]) ==> blocks_within(o, after),
        all_unplaced(before) && node.unplaced() ==> all_unplaced(after),
        all_text_resolved(before) && node.text_resolved() ==> all_text_resolved(after),
{
    match last_content(before) {
        Some(j) => {
            lemma_last_content_bound(before);
            if attaches_spec(before[j].kind, node.kind) {
                let b = before[j];
                let a = after[j];
                assert forall|src: Seq<u8>|
                    #![trigger trees_in(src, after)]
                    trees_in(src, before) && node.tree_in(src) && attach_ready(before, node) implies trees_in(src, after) by {
                    assert(b.tree_in(src));
                    assert forall|i: int| 0 <= i < a.children@.len() implies (#[trigger] a.children@[i]).tree_in(src) by {
                        if i < b.children@.len() {
                            assert(a.children@[i] == b.children@[i]);
                        }
                    }
                    assert(a.covers_blocks(a.children@)) by {
                        assert forall|i: int|
                            0 <= i < a.children@.len() && (#[trigger] a.children@[i]).kind is Attributes
                                && a.children@[i].span is Some && a.span is Some implies a.span.unwrap().covers(
                            a.children@[i].span.unwrap(),
                        ) by {
                            assert(a.children@[i] == b.children@[i]);
                        }
                    }
                    assert(a.located_in(src));
                    assert forall|i: int| 0 <= i < after.len() implies (#[trigger] after[i]).tree_in(src) by {
                        if i != j {
                            assert(after[i] == before[i]);
                        }
                    }
                }
                assert forall|o: Option<crate::span::Span>|
                    #![trigger blocks_within(o, after)]
                    blocks_within(o, before) && blocks_within(o, seq![node]) implies blocks_within(o, after) by {
                    assert forall|i: int|
                        0 <= i < after.len() && (#[trigger] after[i]).kind is Attributes && after[i].span is Some
                            && o is Some implies o.unwrap().covers(after[i].span.unwrap()) by {
                        if i != j {
                            assert(after[i] == before[i]);
                        }
                    }
                }
                if all_text_resolved(before) && node.text_resolved() {
                    assert(b.text_resolved());
                    assert forall|i: int| 0 <= i < a.children@.len() implies (#[trigger] a.children@[i]).text_resolved() by {
                        if i < b.children@.len() {
                            assert(a.children@[i] == b.children@[i]);
                        }
                    }
                    assert forall|i: int| 0 <= i < after.len() implies (#[trigger] after[i]).text_resolved() by {
                        if i != j {
                            assert(after[i] == before[i]);
                        }
                    }
                }
                if all_unplaced(before) && node.unplaced() {
                    assert(b.unplaced());
                    assert forall|i: int| 0 <= i < a.children@.len() implies (#[trigger] a.children@[i]).unplaced() by {
                        if i < b.children@.len() {
                            assert(a.children@[i] == b.children@[i]);
                        }
                    }
                    assert forall|i: int| 0 <= i < after.len() implies (#[trigger] after[i]).unplaced() by {
                        if i != j {
                            assert(after[i] == before[i]);
                        }
                    }
                }
            } else {
                lemma_push_keeps(before, node, after);
            }
        },
        None => {
            lemma_push_keeps(before, node, after);
        },
    }
}

/// Pushing adds no block but the node itself, at the end; so the blocks stay
/// in order when a block pushed comes after those already there.
pub proof fn lemma_pushed_in_order(before: Seq<Node>, node: Node, after: Seq<Node>)
    requires
        pushed_resolved(before, node, after),
    ensures
        forall|m: int|
            0 <= m < after.len() && is_block(#[trigger] after[m]) ==> (m < before.len() && after[m] == before[m]) || (m
                == before.len() && after[m] == node),
        blocks_in_order(before) && (is_block(node) ==> forall|m: int|
            0 <= m < before.len() && is_block(#[trigger] before[m]) ==> before[m].span.unwrap().end
                < node.span.unwrap().start) ==> blocks_in_order(after),
        forall|m: int|
            0 <= m < after.len() ==> (m < before.len() && (#[trigger] after[m]).span == before[m].span) || (m
                == before.len() && after[m] == node),
{
    lemma_last_content_bound(before);
    assert forall|m: int| 0 <= m < after.len() implies (m < before.len() && (#[trigger] after[m]).span == before[m].span)
        || (m == before.len() && after[m] == node) by {
        match last_content(before) {
            Some(j) if attaches_spec(before[j].kind, node.kind) => {
                if m != j {
                    assert(after[m] == before[m]);
                }
            },
            _ => {},
        }
    }
    assert forall|m: int|
        0 <= m < after.len() && is_block(#[trigger] after[m]) implies (m < before.len() && after[m] == before[m]) || (m
            == before.len() && after[m] == node) by {
        match last_content(before) {
            Some(j) if attaches_spec(before[j].kind, node.kind) => {
                if m != j {
                    assert(after[m] == before[m]);
                }
            },
            _ => {},
        }
    }
}

proof fn lemma_push_keeps(before: Seq<Node>, node: Node, after: Seq<Node>)
    requires
        after == before.push(node),
    ensures
        forall|src: Seq<u8>|
            #![trigger trees_in(src, after)]
            trees_in(src, before) && node.tree_in(src) ==> trees_in(src, after),
        forall|o: Option<crate::span::Span>|
            #![trigger blocks_within(o, after)]
            blocks_within(o, before) && blocks_within(o, seq![node]) ==> blocks_within(o, after),
        all_unplaced(before) && node.unplaced() ==> all_unplaced(after),
        all_text_resolved(before) && node.text_resolved() ==> all_text_resolved(after),
{
    assert forall|o: Option<crate::span::Span>|
        #![trigger blocks_within(o, after)]
        blocks_within(o, before) && blocks_within(o, seq![node]) implies blocks_within(o, after) by {
        assert forall|i: int|
            0 <= i < after.len() && (#[trigger] after[i]).kind is Attributes && after[i].span is Some
                && o is Some implies o.unwrap().covers(after[i].span.unwrap()) by {
            if i == before.len() {
                assert(seq![node][0] == node);
            }
        }
    }
}

pub proof fn lemma_last_content_bound(nodes: Seq<Node>)
    ensures
        last_content(nodes) matches Some(j) ==> 0 <= j < nodes.len() && !(nodes[j].kind is Attributes),
    decreases nodes.len(),
{
    if nodes.len() > 0 && nodes.last().kind is Attributes {
        lemma_last_content_bound(nodes.drop_last());
        if let Some(j) = last_content(nodes.drop_last()) {
            assert(nodes.drop_last()[j] == nodes[j]);
        }
    }
}

/// Pushes `node` onto `resolved`, as a child of the last content node where
/// it attaches to that one.
pub(crate) fn push_resolved(resolved: &mut Vec<Node>, node: Node)
    ensures
        pushed_resolved(old(resolved)@, node, final(resolved)@),
{
    let ghost before = resolved@;
    let mut i = resolved.len();
    while i > 0 && resolved[i - 1].is_attributes()
        invariant
            i <= resolved@.len(),
            resolved@ == before,
            forall|k: int| i <= k < resolved@.len() ==> (#[trigger] resolved@[k]).kind is Attributes,
        decreases i,
    {
        i = i - 1;
    }
    proof {
        lemma_last_content(before, i - 1);
    }
    if i > 0 && attaches(&resolved[i - 1].kind, &node.kind) {
        let mut last = resolved.remove(i - 1);
        last.push_child(node);
        resolved.insert(i - 1, last);
        proof {
            assert forall|k: int| 0 <= k < before.len() && k != i - 1 implies resolved@[k] == before[k] by {}
        }
    } else {
        resolved.push(node);
    }
}

/// Whether a node is a link, in either spelling.
pub open spec fn is_link(kind: NodeKind) -> bool {
    kind is Link || kind == NodeKind::Delimiter(Delimiter::Link)
}

/// A link name or a footnote pushed right after a link, and a footnote
/// pushed right after a link name, becomes the last child of that node: no
/// node is added beside it, and the node keeps everything else.
pub proof fn law_note_attaches_to_link(before: Seq<Node>, node: Node, after: Seq<Node>)
    requires
        pushed_resolved(before, node, after),
        before.len() > 0,
        (is_link(before.last().kind) && (node.kind == NodeKind::Delimiter(Delimiter::LinkName) || node.kind
            == NodeKind::Delimiter(Delimiter::Footnote))) || (before.last().kind == NodeKind::Delimiter(Delimiter::LinkName)
            && node.kind == NodeKind::Delimiter(Delimiter::Footnote)),
    ensures
        after.len() == before.len(),
        after.drop_last() == before.drop_last(),
        after.last().kind == before.last().kind,
        after.last().attributes == before.last().attributes,
        after.last().span == before.last().span,
        after.last().children@ == before.last().children@.push(node),
{
    lemma_last_content(before, before.len() - 1);
    assert(after.drop_last() =~= before.drop_last());
}

/// A node pushed after content that is neither a link nor a link name, or
/// that is itself neither a link name nor a footnote, stands beside the
/// nodes before it.
pub proof fn law_other_nodes_stand_beside(before: Seq<Node>, node: Node, after: Seq<Node>)
    requires
        pushed_resolved(before, node, after),
        before.len() > 0,
        !(before.last().kind is Attributes),
        !(is_link(before.last().kind) || before.last().kind == NodeKind::Delimiter(Delimiter::LinkName)) || (node.kind
            != NodeKind::Delimiter(Delimiter::LinkName) && node.kind != NodeKind::Delimiter(Delimiter::Footnote)),
    ensures
        after == before.push(node),
{
    lemma_last_content(before, before.len() - 1);
}

} // verus!
