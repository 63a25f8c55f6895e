//! The inline pass: the delimiters inside each text of the block tree.

pub(crate) mod attach;
pub(crate) mod parser;
pub(crate) mod raw;
pub(crate) mod step;
pub(crate) mod table;

use vstd::prelude::*;
use vstd::utf8::*;

use crate::inline::attach::{
    attach_ready, attaches_spec, last_content, lemma_last_content_bound, lemma_pushed_in_order, lemma_pushed_keeps, push_resolved,
    pushed_resolved,
};
use crate::inline::raw::parse_raw;
use crate::inline::step::{inline_nodes, node_resolved, nodes_resolved, pushed_all, raw_pushed};
use crate::inline::table::resolve_table;
use crate::node::delimiter::{Delimiter, Delimiters};
use crate::node::fold::reversed;
use crate::node::attribute::Owned;
use crate::node::tree::{
    all_nested, all_rows_unsplit, all_text_resolved, all_unplaced, all_within, blocks_in_order, blocks_within, is_block,
    lemma_unplaced_tree_in, no_spans, recorded_before, spans_ordered, trees_in, Node, NodeKind,
};
use crate::span::Span;
use crate::text::str_bytes;

verus! {

/// Nodes without positions are located anywhere and hold no spanned block.
proof fn lemma_unplaced_nodes(nodes: Seq<Node>)
    requires
        all_unplaced(nodes),
    ensures
        forall|src: Seq<u8>| trees_in(src, nodes),
        forall|o: Option<Span>| blocks_within(o, nodes),
{
    assert forall|src: Seq<u8>| trees_in(src, nodes) by {
        assert forall|i: int| 0 <= i < nodes.len() implies (#[trigger] nodes[i]).tree_in(src) by {
            lemma_unplaced_tree_in(nodes[i], src);
        }
    }
}

/// Each block among `resolved` ends before any block of `orig` from `i` on
/// begins.
pub open spec fn follows_blocks(resolved: Seq<Node>, orig: Seq<Node>, i: int) -> bool {
    forall|m: int, j: int|
        0 <= m < resolved.len() && i <= j < orig.len() && is_block(#[trigger] resolved[m]) && is_block(#[trigger] orig[j])
            ==> resolved[m].span.unwrap().end < orig[j].span.unwrap().start
}

/// Each node with a span among `resolved` ends before any node with a span
/// of `orig` from `i` on begins.
pub open spec fn follows_spans(resolved: Seq<Node>, orig: Seq<Node>, i: int) -> bool {
    forall|m: int, j: int|
        0 <= m < resolved.len() && i <= j < orig.len() && (#[trigger] resolved[m]).span is Some && (#[trigger] orig[j]).span
            is Some ==> resolved[m].span.unwrap().end < orig[j].span.unwrap().start
}

/// Pushing the node made of `orig[i]`, or one without a span, keeps the
/// nodes with spans in source order.
proof fn lemma_push_keeps_order(before: Seq<Node>, node: Node, after: Seq<Node>, orig: Seq<Node>, i: int)
    requires
        pushed_resolved(before, node, after),
        0 <= i < orig.len(),
        spans_ordered(orig) ==> spans_ordered(before) && follows_spans(before, orig, i),
        node.span is None || node.span == orig[i].span,
    ensures
        spans_ordered(orig) ==> {
            &&& spans_ordered(after)
            &&& follows_spans(after, orig, i + 1)
            &&& (node.span is None ==> follows_spans(after, orig, i))
        },
{
    lemma_pushed_in_order(before, node, after);
    if spans_ordered(orig) {
        assert forall|m: int, l: int|
            0 <= m < l < after.len() && (#[trigger] after[m]).span is Some && (#[trigger] after[l]).span is Some implies after[m].span.unwrap().end
                < after[l].span.unwrap().start by {
            assert(m < before.len());
            assert(after[m].span == before[m].span);
            if l < before.len() {
                assert(after[l].span == before[l].span);
            } else {
                assert(after[l] == node);
            }
        }
        assert forall|m: int, j: int|
            0 <= m < after.len() && i + 1 <= j < orig.len() && (#[trigger] after[m]).span is Some && (#[trigger] orig[j]).span
                is Some implies after[m].span.unwrap().end < orig[j].span.unwrap().start by {
            if m < before.len() {
                assert(after[m].span == before[m].span);
            } else {
                assert(after[m] == node);
            }
        }
        if node.span is None {
            assert forall|m: int, j: int|
                0 <= m < after.len() && i <= j < orig.len() && (#[trigger] after[m]).span is Some && (#[trigger] orig[j]).span
                    is Some implies after[m].span.unwrap().end < orig[j].span.unwrap().start by {
                if m < before.len() {
                    assert(after[m].span == before[m].span);
                } else {
                    assert(after[m] == node);
                }
            }
        }
    }
}

/// Each child with a span of a node among `resolved` ends before any node
/// with a span of `orig` from `i` on begins.
pub open spec fn follows_children(resolved: Seq<Node>, orig: Seq<Node>, i: int) -> bool {
    forall|m: int, k: int, j: int|
        0 <= m < resolved.len() && 0 <= k < resolved[m].children@.len() && i <= j < orig.len() && (
        #[trigger] resolved[m].children@[k]).span is Some && (#[trigger] orig[j]).span is Some
            ==> resolved[m].children@[k].span.unwrap().end < orig[j].span.unwrap().start
}

/// Pushing the node made of `orig[i]`, whose children lie within its span,
/// or a node without positions, keeps the children of the nodes pushed
/// before the nodes still to come.
proof fn lemma_push_follows_children(before: Seq<Node>, node: Node, after: Seq<Node>, orig: Seq<Node>, i: int)
    requires
        pushed_resolved(before, node, after),
        0 <= i < orig.len(),
        spans_ordered(orig),
        follows_children(before, orig, i),
        (node.span is None && no_spans(node.children@)) || (node.span == orig[i].span && node.span is Some
            && all_within(node.children@, node.span.unwrap())),
    ensures
        follows_children(after, orig, i + 1),
        node.span is None ==> follows_children(after, orig, i),
        attach_ready(before, node),
{
    lemma_last_content_bound(before);
    let attached = match last_content(before) {
        Some(j) => attaches_spec(before[j].kind, node.kind),
        None => false,
    };
    assert forall|m: int, k: int, j: int|
        0 <= m < after.len() && 0 <= k < after[m].children@.len() && i + 1 <= j < orig.len() && (
        #[trigger] after[m].children@[k]).span is Some && (#[trigger] orig[j]).span is Some
            implies after[m].children@[k].span.unwrap().end < orig[j].span.unwrap().start by {
        if attached {
            let jj = last_content(before).unwrap();
            if m == jj {
                if k < before[jj].children@.len() {
                    assert(after[m].children@[k] == before[jj].children@[k]);
                } else {
                    assert(after[m].children@[k] == node);
                }
            } else {
                assert(after[m] == before[m]);
            }
        } else if m < before.len() {
            assert(after[m] == before[m]);
        } else {
            assert(after[m] == node);
        }
    }
    if node.span is None {
        assert forall|m: int, k: int, j: int|
            0 <= m < after.len() && 0 <= k < after[m].children@.len() && i <= j < orig.len() && (
            #[trigger] after[m].children@[k]).span is Some && (#[trigger] orig[j]).span is Some
                implies after[m].children@[k].span.unwrap().end < orig[j].span.unwrap().start by {
            if attached {
                let jj = last_content(before).unwrap();
                if m == jj {
                    if k < before[jj].children@.len() {
                        assert(after[m].children@[k] == before[jj].children@[k]);
                    } else {
                        assert(after[m].children@[k] == node);
                    }
                } else {
                    assert(after[m] == before[m]);
                }
            } else if m < before.len() {
                assert(after[m] == before[m]);
            } else {
                assert(after[m] == node);
            }
        }
    }
}

/// Pushing a node without positions keeps the trees of the nodes before it
/// located, their spans within any span, and their children before the
/// nodes still to come.
proof fn lemma_push_unplaced(before: Seq<Node>, node: Node, after: Seq<Node>, orig: Seq<Node>, i: int)
    requires
        pushed_resolved(before, node, after),
        node.unplaced(),
        0 <= i < orig.len(),
    ensures
        forall|src: Seq<u8>|
            #![trigger trees_in(src, before)]
            #![trigger trees_in(src, after)]
            trees_in(src, before) ==> trees_in(src, after),
        forall|s: Span|
            #![trigger all_within(before, s)]
            #![trigger all_within(after, s)]
            all_within(before, s) ==> all_within(after, s),
        spans_ordered(orig) && follows_children(before, orig, i) ==> follows_children(after, orig, i),
{
    lemma_pushed_keeps(before, node, after);
    lemma_pushed_in_order(before, node, after);
    assert(no_spans(node.children@)) by {
        assert forall|k: int| 0 <= k < node.children@.len() implies (#[trigger] node.children@[k]).span is None by {
            assert(node.children@[k].unplaced());
        }
    }
    assert forall|src: Seq<u8>| trees_in(src, before) implies trees_in(src, after) by {
        lemma_unplaced_tree_in(node, src);
    }
    assert forall|s: Span| all_within(before, s) implies all_within(after, s) by {
        assert forall|k: int| 0 <= k < after.len() && (#[trigger] after[k]).span is Some implies s.covers(after[k].span.unwrap()) by {
            if k < before.len() {
                assert(after[k].span == before[k].span);
            }
        }
    }
    if spans_ordered(orig) && follows_children(before, orig, i) {
        lemma_push_follows_children(before, node, after, orig, i);
    }
}

/// A raw text at `orig[i]`, read into `parsed` and pushed onto `done`, carries
/// what the nodes after it leave back to the start.
proof fn lemma_raw_back(done: Seq<Node>, parsed: Seq<Node>, next: Seq<Node>, orig: Seq<Node>, i: int, ancestors: Delimiters)
    requires
        0 <= i < orig.len(),
        orig[i].kind is Raw,
        inline_nodes(encode_utf8(orig[i].kind->Raw_0@), ancestors, parsed),
        raw_pushed(done, parsed, next),
        forall|out: Seq<Node>|
            #![trigger nodes_resolved(done, orig.skip(i), ancestors, out)]
            nodes_resolved(done, orig.skip(i), ancestors, out) ==> nodes_resolved(Seq::empty(), orig, ancestors, out),
    ensures
        forall|out: Seq<Node>|
            #![trigger nodes_resolved(next, orig.skip(i + 1), ancestors, out)]
            nodes_resolved(next, orig.skip(i + 1), ancestors, out) ==> nodes_resolved(Seq::empty(), orig, ancestors, out),
{
    assert(orig.skip(i).drop_first() =~= orig.skip(i + 1));
    assert(orig.skip(i)[0] == orig[i]);
    assert forall|out: Seq<Node>|
        #![trigger nodes_resolved(next, orig.skip(i + 1), ancestors, out)]
        nodes_resolved(next, orig.skip(i + 1), ancestors, out) implies nodes_resolved(Seq::empty(), orig, ancestors, out) by {
        let rest = orig.skip(i);
        assert(nodes_resolved(next, rest.drop_first(), ancestors, out));
        assert(inline_nodes(encode_utf8(rest[0].kind->Raw_0@), ancestors, parsed));
        assert(nodes_resolved(done, rest, ancestors, out));
    }
}

/// Any other node at `orig[i]`, resolved into `m` and pushed onto `done`,
/// carries what the nodes after it leave back to the start.
proof fn lemma_node_back(done: Seq<Node>, m: Node, next: Seq<Node>, orig: Seq<Node>, i: int, ancestors: Delimiters)
    requires
        0 <= i < orig.len(),
        !(orig[i].kind is Raw),
        node_resolved(orig[i], ancestors, m),
        pushed_resolved(done, m, next),
        forall|out: Seq<Node>|
            #![trigger nodes_resolved(done, orig.skip(i), ancestors, out)]
            nodes_resolved(done, orig.skip(i), ancestors, out) ==> nodes_resolved(Seq::empty(), orig, ancestors, out),
    ensures
        forall|out: Seq<Node>|
            #![trigger nodes_resolved(next, orig.skip(i + 1), ancestors, out)]
            nodes_resolved(next, orig.skip(i + 1), ancestors, out) ==> nodes_resolved(Seq::empty(), orig, ancestors, out),
{
    assert(orig.skip(i).drop_first() =~= orig.skip(i + 1));
    assert(orig.skip(i)[0] == orig[i]);
    assert forall|out: Seq<Node>|
        #![trigger nodes_resolved(next, orig.skip(i + 1), ancestors, out)]
        nodes_resolved(next, orig.skip(i + 1), ancestors, out) implies nodes_resolved(Seq::empty(), orig, ancestors, out) by {
        let rest = orig.skip(i);
        assert(nodes_resolved(next, rest.drop_first(), ancestors, out));
        assert(node_resolved(rest[0], ancestors, m));
        assert(nodes_resolved(done, rest, ancestors, out));
    }
}

/// Pushing the next of `items` carries what the rest leave back to `first`.
proof fn lemma_push_back(first: Seq<Node>, before: Seq<Node>, after: Seq<Node>, items: Seq<Node>, k: int)
    requires
        0 <= k < items.len(),
        pushed_resolved(before, items[k], after),
        forall|out: Seq<Node>|
            #![trigger pushed_all(before, items.skip(k), out)]
            pushed_all(before, items.skip(k), out) ==> pushed_all(first, items, out),
    ensures
        forall|out: Seq<Node>|
            #![trigger pushed_all(after, items.skip(k + 1), out)]
            pushed_all(after, items.skip(k + 1), out) ==> pushed_all(first, items, out),
{
    assert(items.skip(k).drop_first() =~= items.skip(k + 1));
    assert(items.skip(k)[0] == items[k]);
    assert forall|out: Seq<Node>|
        #![trigger pushed_all(after, items.skip(k + 1), out)]
        pushed_all(after, items.skip(k + 1), out) implies pushed_all(first, items, out) by {
        assert(pushed_all(after, items.skip(k).drop_first(), out));
        assert(pushed_all(before, items.skip(k), out));
    }
}

/// Resolves the text of each node into inline nodes and recurses into the
/// others. `ancestors` are the delimiters already open around `nodes`, which
/// cannot open again inside them.
pub(crate) fn resolve_nodes(nodes: Vec<Node>, ancestors: Delimiters) -> (r: Vec<Node>)
    ensures
        forall|src: Seq<u8>|
            #![trigger trees_in(src, nodes@)]
            trees_in(src, nodes@) && all_nested(nodes@) && spans_ordered(nodes@) ==> trees_in(src, r@),
        forall|o: Option<Span>|
            #![trigger blocks_within(o, nodes@)]
            blocks_within(o, nodes@) ==> blocks_within(o, r@),
        forall|s: Span| #![trigger all_within(nodes@, s)] all_within(nodes@, s) ==> all_within(r@, s),
        blocks_in_order(nodes@) ==> blocks_in_order(r@),
        forall|o: Owned| #![trigger recorded_before(o, nodes@)] recorded_before(o, nodes@) ==> recorded_before(o, r@),
        all_rows_unsplit(nodes@) ==> all_text_resolved(r@),
        (forall|i: int| 0 <= i < nodes@.len() ==> (#[trigger] nodes@[i]).span is Some && !(nodes@[i].kind is Raw))
            ==> forall|i: int| 0 <= i < r@.len() ==> (#[trigger] r@[i]).span is Some,
        spans_ordered(nodes@) ==> spans_ordered(r@),
        no_spans(nodes@) ==> no_spans(r@),
        nodes_resolved(Seq::empty(), nodes@, ancestors, r@),
    decreases nodes,
{
    let ghost orig = nodes@;
    assert(orig.skip(0) =~= orig);
    let ghost whole = nodes;
    assert(orig.len() <= usize::MAX) by {
        assert(nodes.len() == orig.len());
    }
    let mut rest = reversed(nodes);
    let mut resolved: Vec<Node> = Vec::new();
    let mut i: usize = 0;
    while rest.len() > 0
        invariant
            whole@ == orig,
            whole == nodes,
            rest@.len() + i == orig.len(),
            orig.len() <= usize::MAX,
            forall|j: int| 0 <= j < rest@.len() ==> rest@[j] == orig[orig.len() - 1 - j],
            forall|src: Seq<u8>|
                #![trigger trees_in(src, orig)]
                trees_in(src, orig) && all_nested(orig) && spans_ordered(orig) ==> trees_in(src, resolved@),
            forall|o: Option<Span>|
                #![trigger blocks_within(o, orig)]
                blocks_within(o, orig) ==> blocks_within(o, resolved@),
            forall|s: Span| #![trigger all_within(orig, s)] all_within(orig, s) ==> all_within(resolved@, s),
            all_nested(orig) && spans_ordered(orig) ==> follows_children(resolved@, orig, i as int),
            blocks_in_order(orig) ==> blocks_in_order(resolved@),
            blocks_in_order(orig) ==> follows_blocks(resolved@, orig, i as int),
            forall|o: Owned| #![trigger recorded_before(o, orig)] recorded_before(o, orig) ==> recorded_before(o, resolved@),
            all_rows_unsplit(orig) ==> all_text_resolved(resolved@),
            (forall|k: int| 0 <= k < orig.len() ==> (#[trigger] orig[k]).span is Some && !(orig[k].kind is Raw))
                ==> forall|k: int| 0 <= k < resolved@.len() ==> (#[trigger] resolved@[k]).span is Some,
            spans_ordered(orig) ==> spans_ordered(resolved@) && follows_spans(resolved@, orig, i as int),
            no_spans(orig) ==> no_spans(resolved@),
            forall|out: Seq<Node>|
                #![trigger nodes_resolved(resolved@, orig.skip(i as int), ancestors, out)]
                nodes_resolved(resolved@, orig.skip(i as int), ancestors, out) ==> nodes_resolved(Seq::empty(), orig, ancestors, out),
        decreases rest@.len(),
    {
        let ghost done = resolved@;
        let node = rest.pop().unwrap();
        assert(node == orig[i as int]);
        proof {
            vstd::std_specs::vec::axiom_vec_index_decreases(whole, i as int);
        }
        if let NodeKind::Raw(text) = &node.kind {
            let parsed = parse_raw(str_bytes(text.as_str()), ancestors);
            let ghost pv = parsed@;
            proof {
                lemma_unplaced_nodes(parsed@);
            }
            if resolved.len() == 0 {
                resolved = parsed;
                proof {
                    lemma_raw_back(done, pv, resolved@, orig, i as int, ancestors);
                    assert(no_spans(resolved@)) by {
                        assert forall|k: int| 0 <= k < resolved@.len() implies (#[trigger] resolved@[k]).span is None by {
                            assert(resolved@[k].unplaced());
                        }
                    }
                    assert forall|m: int, k: int, j: int|
                        0 <= m < resolved@.len() && 0 <= k < resolved@[m].children@.len() && i <= j < orig.len() && (
                        #[trigger] resolved@[m].children@[k]).span is Some && (#[trigger] orig[j]).span is Some implies resolved@[m].children@[k].span.unwrap().end
                            < orig[j].span.unwrap().start by {
                        assert(resolved@[m].unplaced());
                        assert(resolved@[m].children@[k].unplaced());
                    }
                }
            } else {
                let ghost first = resolved@;
                let mut items = reversed(parsed);
                let ghost all = items@;
                let ghost mut k: int = 0;
                assert(pv.skip(0) =~= pv);
                while items.len() > 0
                    invariant
                        0 <= k,
                        items@.len() + k == pv.len(),
                        forall|j: int| 0 <= j < items@.len() ==> items@[j] == pv[pv.len() - 1 - j],
                        forall|out: Seq<Node>|
                            #![trigger pushed_all(resolved@, pv.skip(k), out)]
                            pushed_all(resolved@, pv.skip(k), out) ==> pushed_all(first, pv, out),
                        forall|j: int| 0 <= j < items@.len() ==> (#[trigger] items@[j]).unplaced(),
                        blocks_in_order(orig) ==> blocks_in_order(resolved@),
                        blocks_in_order(orig) ==> follows_blocks(resolved@, orig, i as int),
                        forall|o: Owned| #![trigger recorded_before(o, orig)] recorded_before(o, orig) ==> recorded_before(o, resolved@),
                        forall|j: int| 0 <= j < items@.len() ==> (#[trigger] items@[j]).text_resolved(),
                        all_rows_unsplit(orig) ==> all_text_resolved(resolved@),
                        0 <= i < orig.len(),
                        orig[i as int].kind is Raw,
                        spans_ordered(orig) ==> spans_ordered(resolved@) && follows_spans(resolved@, orig, i as int),
                        forall|src: Seq<u8>| #![trigger trees_in(src, first)] trees_in(src, first) ==> trees_in(src, resolved@),
                        forall|o: Option<Span>|
                            #![trigger blocks_within(o, first)]
                            blocks_within(o, first) ==> blocks_within(o, resolved@),
                        forall|s: Span| #![trigger all_within(orig, s)] all_within(orig, s) ==> all_within(resolved@, s),
                        all_nested(orig) && spans_ordered(orig) ==> follows_children(resolved@, orig, i as int),
                        no_spans(orig) ==> no_spans(resolved@),
                    decreases items@.len(),
                {
                    let item = items.pop().unwrap();
                    let ghost before = resolved@;
                    push_resolved(&mut resolved, item);
                    proof {
                        assert(item == pv[k]);
                        lemma_push_back(first, before, resolved@, pv, k);
                        k = k + 1;
                        lemma_pushed_keeps(before, item, resolved@);
                        lemma_pushed_in_order(before, item, resolved@);
                        lemma_push_keeps_order(before, item, resolved@, orig, i as int);
                        lemma_push_unplaced(before, item, resolved@, orig, i as int);
                        lemma_unplaced_nodes(seq![item]);
                        assert forall|src: Seq<u8>| #![trigger trees_in(src, first)] trees_in(src, first) implies trees_in(src, resolved@) by {
                            assert(trees_in(src, before));
                        }
                        assert forall|s: Span| #![trigger all_within(orig, s)] all_within(orig, s) implies all_within(resolved@, s) by {
                            assert(all_within(before, s));
                        }
                        if no_spans(orig) {
                            assert forall|k: int| 0 <= k < resolved@.len() implies (#[trigger] resolved@[k]).span is None by {
                                if k < before.len() {
                                    assert(resolved@[k].span == before[k].span);
                                }
                            }
                        }
                        assert forall|o: Option<Span>|
                            #![trigger blocks_within(o, first)]
                            blocks_within(o, first) implies blocks_within(o, resolved@) by {
                            assert(blocks_within(o, before));
                            assert(blocks_within(o, seq![item]));
                        }
                    }
                }
                proof {
                    assert(pv.skip(k) =~= Seq::<Node>::empty());
                    assert(pushed_all(resolved@, pv.skip(k), resolved@));
                    assert(pushed_all(first, pv, resolved@));
                    lemma_raw_back(done, pv, resolved@, orig, i as int, ancestors);
                }
            }
        } else {
            let ghost before = resolved@;
            let node = resolve_node(node, ancestors);
            push_resolved(&mut resolved, node);
            proof {
                lemma_pushed_keeps(before, node, resolved@);
                lemma_pushed_in_order(before, node, resolved@);
                lemma_push_keeps_order(before, node, resolved@, orig, i as int);
                lemma_node_back(done, node, resolved@, orig, i as int, ancestors);
                if all_nested(orig) && spans_ordered(orig) {
                    assert(orig[i as int].nested());
                    lemma_push_follows_children(before, node, resolved@, orig, i as int);
                }
                assert forall|s: Span| #![trigger all_within(orig, s)] all_within(orig, s) implies all_within(resolved@, s) by {
                    assert(all_within(before, s));
                    assert forall|k: int| 0 <= k < resolved@.len() && (#[trigger] resolved@[k]).span is Some implies s.covers(
                        resolved@[k].span.unwrap(),
                    ) by {
                        if k < before.len() {
                            assert(resolved@[k].span == before[k].span);
                        } else {
                            assert(orig[i as int].span is Some);
                        }
                    }
                }
                if no_spans(orig) {
                    assert forall|k: int| 0 <= k < resolved@.len() implies (#[trigger] resolved@[k]).span is None by {
                        if k < before.len() {
                            assert(resolved@[k].span == before[k].span);
                        } else {
                            assert(orig[i as int].span is None);
                        }
                    }
                }
                if blocks_in_order(orig) {
                    assert(follows_blocks(before, orig, i as int));
                    assert(follows_blocks(resolved@, orig, i + 1)) by {
                        assert forall|m: int, j: int|
                            0 <= m < resolved@.len() && i + 1 <= j < orig.len() && is_block(#[trigger] resolved@[m])
                                && is_block(#[trigger] orig[j]) implies resolved@[m].span.unwrap().end < orig[j].span.unwrap().start by {
                            if m < before.len() {
                                assert(resolved@[m] == before[m]);
                            }
                        }
                    }
                }
                assert forall|o: Owned| #![trigger recorded_before(o, orig)] recorded_before(o, orig) implies recorded_before(o, resolved@) by {
                    assert(recorded_before(o, before));
                    if o is Some {
                        let a = o.unwrap();
                        assert forall|k: int, m: int|
                            0 <= k < a.blocks@.len() && 0 <= m < resolved@.len() && is_block(#[trigger] resolved@[m]) implies (
                            #[trigger] a.blocks@[k]).end < resolved@[m].span.unwrap().start by {
                            if m < before.len() {
                                assert(resolved@[m] == before[m]);
                            } else {
                                assert(is_block(orig[i as int]));
                            }
                        }
                    }
                }
                assert forall|src: Seq<u8>|
                    #![trigger trees_in(src, orig)]
                    trees_in(src, orig) && all_nested(orig) && spans_ordered(orig) implies trees_in(src, resolved@) by {
                    assert(orig[i as int].tree_in(src));
                    assert(orig[i as int].nested());
                    assert(trees_in(src, before));
                }
                assert forall|o: Option<Span>| #![trigger blocks_within(o, orig)] blocks_within(o, orig) implies blocks_within(o, resolved@) by {
                    assert(blocks_within(o, before));
                    assert(blocks_within(o, seq![node])) by {
                        assert forall|k: int|
                            0 <= k < 1 && (#[trigger] seq![node][k]).kind is Attributes && seq![node][k].span is Some
                                && o is Some implies o.unwrap().covers(seq![node][k].span.unwrap()) by {
                            assert(seq![node][k] == node);
                        }
                    }
                }
            }
        }
        i = i + 1;
    }
    proof {
        assert(orig.skip(i as int) =~= Seq::<Node>::empty());
        assert(nodes_resolved(resolved@, orig.skip(i as int), ancestors, resolved@));
    }
    resolved
}

/// Resolves the children of one node: a table's rows into cells, a verbatim
/// node's text left as it is, the children of a delimiter with it among the
/// ancestors.
fn resolve_node(node: Node, ancestors: Delimiters) -> (r: Node)
    ensures
        r.kind == node.kind,
        r.attributes == node.attributes,
        r.span == node.span,
        r.fence == node.fence,
        forall|src: Seq<u8>| node.tree_in(src) && node.nested() ==> r.tree_in(src),
        node.nested() && node.span is Some ==> all_within(r.children@, node.span.unwrap()),
        node.nested() && node.span is None ==> no_spans(r.children@),
        node.rows_unsplit() && !(node.kind is Raw) ==> r.text_resolved(),
        node_resolved(node, ancestors, r),
    decreases node,
{
    let ghost whole = node;
    let Node { kind, attributes, children, span, fence } = node;
    let ghost before = children@;
    let children = match &kind {
        NodeKind::Table => resolve_table(children, ancestors),
        NodeKind::Delimiter(Delimiter::Verbatim) => children,
        NodeKind::Delimiter(d) => resolve_nodes(children, ancestors.with(*d)),
        _ => resolve_nodes(children, ancestors),
    };
    let r = Node { kind, attributes, children, span, fence };
    proof {
        if whole.nested() {
            assert(all_nested(before));
            if span is Some {
                assert(all_within(before, span.unwrap()));
            } else {
                assert(no_spans(before));
            }
        }
        assert forall|src: Seq<u8>| whole.tree_in(src) && whole.nested() implies r.tree_in(src) by {
            assert(all_nested(before));
            assert(spans_ordered(before));
            assert(trees_in(src, before));
            assert(blocks_within(span, before)) by {
                assert(whole.covers_blocks(before));
            }
            assert(trees_in(src, r.children@));
            assert(blocks_within(span, r.children@));
            assert(r.covers_blocks(r.children@));
            assert(whole.located_in(src));
            assert(blocks_in_order(before));
            assert(recorded_before(attributes, before));
            assert(blocks_in_order(r.children@));
            assert(recorded_before(attributes, r.children@));
            assert(spans_ordered(r.children@));
        }
        if whole.rows_unsplit() && !(whole.kind is Raw) {
            assert(all_rows_unsplit(before));
            if kind is Table {
                assert(forall|k: int| 0 <= k < before.len() ==> crate::node::tree::row_unsplit(#[trigger] before[k]));
            }
            if kind != NodeKind::Delimiter(Delimiter::Verbatim) {
                assert(all_text_resolved(r.children@));
            }
        }
    }
    r
}

} // verus!
