//! Folding: an attribute block node moves into the attributes of the node
//! that owns it (its parent; at the root, the document).

use vstd::prelude::*;
use vstd::utf8::*;

use crate::node::attribute::{push_children, Attribute, Attributes, Owned};
use crate::node::tree::{
    all_text_resolved, block_span_in, blocks_in_order, blocks_within, is_block, owned_blocks_in, recorded_before, spans_in_order,
    spans_ordered, trees_in, Node, NodeKind,
};
use crate::span::Span;
use crate::text::{lemma_valid_drop_ascii, lemma_valid_concat, push_bytes, str_bytes, string_from};
use crate::whitespace::is_ws;

verus! {

/// Text that an attribute block separated from `previous`, joined back onto
/// it: the space either side of the removed block is a single separator.
pub open spec fn joined_text(previous: Seq<u8>, text: Seq<u8>) -> Seq<u8> {
    if previous.len() > 0 && is_ws(previous.last()) && text.len() > 0 && is_ws(text[0]) {
        previous + text.drop_first()
    } else {
        previous + text
    }
}

fn join_text(previous: &String, text: &String) -> (joined: String)
    ensures
        encode_utf8(joined@) == joined_text(encode_utf8(previous@), encode_utf8(text@)),
{
    let p = str_bytes(previous.as_str());
    let t = str_bytes(text.as_str());
    let mut bytes: Vec<u8> = Vec::new();
    push_bytes(&mut bytes, p);
    let both = p.len() > 0 && crate::whitespace::is_ws_byte(p[p.len() - 1]) && t.len() > 0
        && crate::whitespace::is_ws_byte(t[0]);
    if both {
        let rest = &t[1..t.len()];
        proof {
            lemma_valid_drop_ascii(t@);
            assert(rest@ =~= t@.drop_first());
            lemma_valid_concat(p@, rest@);
        }
        push_bytes(&mut bytes, rest);
    } else {
        proof {
            lemma_valid_concat(p@, t@);
        }
        push_bytes(&mut bytes, t);
    }
    string_from(bytes.as_slice())
}

/// The attributes the attribute blocks among `nodes` hold, in order.
pub open spec fn block_children(nodes: Seq<Node>) -> Seq<Attribute>
    decreases nodes.len(),
{
    if nodes.len() == 0 {
        Seq::empty()
    } else {
        let rest = block_children(nodes.drop_last());
        let n = nodes.last();
        if n.kind is Attributes {
            rest + match n.attributes {
                Some(a) => a.children@,
                None => Seq::empty(),
            }
        } else {
            rest
        }
    }
}

/// The spans of the attribute blocks among `nodes` that have one, in order.
pub open spec fn block_spans(nodes: Seq<Node>) -> Seq<Span>
    decreases nodes.len(),
{
    if nodes.len() == 0 {
        Seq::empty()
    } else {
        let rest = block_spans(nodes.drop_last());
        let n = nodes.last();
        if n.kind is Attributes && n.span is Some {
            rest.push(n.span.unwrap())
        } else {
            rest
        }
    }
}

/// `after` is `before` once the attribute blocks among `nodes` are folded
/// into it: their attributes and spans append, and an owner without
/// attributes gains some only if the blocks bring any.
pub open spec fn folded_into(before: Owned, after: Owned, nodes: Seq<Node>) -> bool {
    if before is None && block_children(nodes).len() == 0 && block_spans(nodes).len() == 0 {
        after is None
    } else {
        &&& after matches Some(a)
        &&& a.entries@ == (match before {
            Some(b) => b.entries@,
            None => Seq::empty(),
        })
        &&& a.children@ == (match before {
            Some(b) => b.children@,
            None => Seq::empty(),
        }) + block_children(nodes)
        &&& a.blocks@ == (match before {
            Some(b) => b.blocks@,
            None => Seq::empty(),
        }) + block_spans(nodes)
    }
}

/// Two trees are the same: same kinds, attributes and positions throughout.
pub open spec fn same_tree(a: Node, b: Node) -> bool
    decreases a,
{
    &&& a.kind == b.kind
    &&& a.attributes == b.attributes
    &&& a.span == b.span
    &&& a.fence == b.fence
    &&& a.children@.len() == b.children@.len()
    &&& forall|i: int| 0 <= i < a.children@.len() ==> same_tree(#[trigger] a.children@[i], b.children@[i])
}

pub open spec fn same_trees(a: Seq<Node>, b: Seq<Node>) -> bool {
    &&& a.len() == b.len()
    &&& forall|i: int| 0 <= i < a.len() ==> same_tree(#[trigger] a[i], b[i])
}

pub open spec fn all_folded(nodes: Seq<Node>) -> bool {
    forall|i: int| 0 <= i < nodes.len() ==> (#[trigger] nodes[i]).folded()
}

/// What folding needs of a list of nodes in `src`: each tree is located
/// there, the attribute blocks among them lie within the owner's span and
/// come in source order after those the owner has recorded, which are
/// located too.
pub open spec fn fold_ready(src: Seq<u8>, nodes: Seq<Node>, owner: Owned, span: Option<Span>) -> bool {
    &&& trees_in(src, nodes)
    &&& blocks_within(span, nodes)
    &&& owned_blocks_in(src, owner, span)
    &&& blocks_in_order(nodes)
    &&& recorded_before(owner, nodes)
}

/// Reverses a vector, so that popping hands its items out in order.
pub(crate) fn reversed<T>(v: Vec<T>) -> (r: Vec<T>)
    ensures
        r@ == v@.reverse(),
{
    let mut v = v;
    let ghost orig = v@;
    let mut r: Vec<T> = Vec::new();
    while v.len() > 0
        invariant
            v@ == orig.take(v@.len() as int),
            r@.len() + v@.len() == orig.len(),
            forall|j: int| 0 <= j < r@.len() ==> r@[j] == orig[orig.len() - 1 - j],
        decreases v@.len(),
    {
        let x = v.pop().unwrap();
        r.push(x);
        assert(v@ =~= orig.take(v@.len() as int));
    }
    assert(r@ =~= orig.reverse());
    r
}

/// How folding groups `nodes`: each group holds the positions of the nodes
/// that make one node of the result. An attribute block makes none; a text
/// right after removed blocks joins the group before them where that one is
/// text too.
pub open spec fn fold_groups(nodes: Seq<Node>) -> Seq<Seq<int>>
    decreases nodes.len(),
{
    if nodes.len() == 0 {
        Seq::empty()
    } else {
        let init = nodes.drop_last();
        let g = fold_groups(init);
        let i = nodes.len() - 1;
        if nodes[i].kind is Attributes {
            g
        } else if init.len() > 0 && init.last().kind is Attributes && nodes[i].kind is Text && g.len() > 0
            && nodes[g.last()[0]].kind is Text {
            g.update(g.len() - 1, g.last().push(i))
        } else {
            g.push(seq![i])
        }
    }
}

/// The text of a text node, as bytes.
pub open spec fn text_bytes(n: Node) -> Seq<u8> {
    match n.kind {
        NodeKind::Text(t) => encode_utf8(t@),
        _ => Seq::empty(),
    }
}

/// The texts of the nodes at `group`, each joined onto those before it.
pub open spec fn joined_texts(nodes: Seq<Node>, group: Seq<int>) -> Seq<u8>
    decreases group.len(),
{
    if group.len() == 0 {
        Seq::empty()
    } else if group.len() == 1 {
        text_bytes(nodes[group[0]])
    } else {
        joined_text(joined_texts(nodes, group.drop_last()), text_bytes(nodes[group.last()]))
    }
}

/// `r` is `n` folded: the same positions (and kind, where `keep_kind`), the
/// blocks among its children folded into its attributes, and its children
/// folded in turn.
pub open spec fn folds_node(n: Node, r: Node, keep_kind: bool) -> bool
    decreases n,
{
    &&& (keep_kind ==> r.kind == n.kind)
    &&& r.span == n.span
    &&& r.fence == n.fence
    &&& folded_into(n.attributes, r.attributes, n.children@)
    &&& folds_list(n.children@, r.children@)
}

/// `r` is `nodes` folded: one node for each group of [`fold_groups`], the
/// node of a group of one folded, that of a longer group the first of them
/// folded with the texts of all joined.
pub open spec fn folds_list(nodes: Seq<Node>, r: Seq<Node>) -> bool
    decreases nodes,
{
    let g = fold_groups(nodes);
    &&& r.len() == g.len()
    &&& forall|k: int|
        0 <= k < g.len() ==> if g[k].len() > 0 && 0 <= g[k][0] < nodes.len() {
            if g[k].len() == 1 {
                folds_node(nodes[g[k][0]], #[trigger] r[k], true)
            } else {
                &&& r[k].kind matches NodeKind::Text(t)
                &&& encode_utf8(t@) == joined_texts(nodes, g[k])
                &&& folds_node(nodes[g[k][0]], r[k], false)
            }
        } else {
            false
        }
}

/// Each group is non-empty, holds positions of `nodes`, and a group of more
/// than one starts with a text.
proof fn lemma_fold_groups(nodes: Seq<Node>)
    ensures
        forall|k: int|
            0 <= k < fold_groups(nodes).len() ==> {
                &&& (#[trigger] fold_groups(nodes)[k]).len() >= 1
                &&& forall|m: int| 0 <= m < fold_groups(nodes)[k].len() ==> 0 <= #[trigger] fold_groups(nodes)[k][m] < nodes.len()
                &&& fold_groups(nodes)[k].len() > 1 ==> nodes[fold_groups(nodes)[k][0]].kind is Text
            },
        forall|k: int, l: int|
            0 <= k < l < fold_groups(nodes).len() ==> (#[trigger] fold_groups(nodes)[k])[0] < (
            #[trigger] fold_groups(nodes)[l])[0],
    decreases nodes.len(),
{
    if nodes.len() > 0 {
        let init = nodes.drop_last();
        lemma_fold_groups(init);
        let g = fold_groups(init);
        let i = nodes.len() - 1;
        if !(nodes[i].kind is Attributes) && g.len() > 0 {
            assert(0 <= g.last()[0] < init.len());
            assert(init[g.last()[0]] == nodes[g.last()[0]]);
        }
        assert forall|k: int| 0 <= k < g.len() && g[k].len() > 1 implies nodes[g[k][0]].kind is Text by {
            assert(0 <= g[k][0] < init.len());
            assert(init[g[k][0]] == nodes[g[k][0]]);
        }
    }
}

/// Where every position of `group` lies within `init`, a prefix of `nodes`,
/// the texts joined are the same in both.
proof fn lemma_joined_texts_prefix(nodes: Seq<Node>, init: Seq<Node>, group: Seq<int>)
    requires
        init.len() <= nodes.len(),
        forall|m: int| 0 <= m < init.len() ==> init[m] == nodes[m],
        forall|m: int| 0 <= m < group.len() ==> 0 <= #[trigger] group[m] < init.len(),
    ensures
        joined_texts(nodes, group) == joined_texts(init, group),
    decreases group.len(),
{
    if group.len() > 1 {
        lemma_joined_texts_prefix(nodes, init, group.drop_last());
        assert(group.last() == group[group.len() - 1]);
    } else if group.len() == 1 {
        assert(group[0] == group[0]);
    }
}

/// The folded nodes of `init` carry over to `nodes`, `init` followed by more.
proof fn lemma_folds_list_prefix(nodes: Seq<Node>, init: Seq<Node>, r: Seq<Node>, k: int)
    requires
        init.len() <= nodes.len(),
        forall|m: int| 0 <= m < init.len() ==> init[m] == nodes[m],
        folds_list(init, r),
        0 <= k < fold_groups(init).len(),
    ensures
        ({
            let grp = fold_groups(init)[k];
            &&& grp.len() >= 1
            &&& 0 <= grp[0] < init.len()
            &&& nodes[grp[0]] == init[grp[0]]
            &&& joined_texts(nodes, grp) == joined_texts(init, grp)
            &&& (grp.len() == 1 ==> folds_node(init[grp[0]], r[k], true))
            &&& (grp.len() > 1 ==> {
                &&& r[k].kind matches NodeKind::Text(t)
                &&& encode_utf8(t@) == joined_texts(init, grp)
                &&& folds_node(init[grp[0]], r[k], false)
                &&& init[grp[0]].kind is Text
            })
        }),
{
    lemma_fold_groups(init);
    let grp = fold_groups(init)[k];
    assert(grp.len() >= 1);
    assert forall|m: int| 0 <= m < grp.len() implies 0 <= #[trigger] grp[m] < init.len() by {}
    lemma_joined_texts_prefix(nodes, init, grp);
    assert(0 <= grp[0] < init.len());
}

/// Folding keeps every node that remains where it was: where all of `nodes`
/// carry a span, all of `r` do.
pub proof fn lemma_folds_list_spans(nodes: Seq<Node>, r: Seq<Node>)
    requires
        folds_list(nodes, r),
        forall|i: int| 0 <= i < nodes.len() ==> (#[trigger] nodes[i]).span is Some,
    ensures
        forall|k: int| 0 <= k < r.len() ==> (#[trigger] r[k]).span is Some,
{
    assert forall|k: int| 0 <= k < r.len() implies (#[trigger] r[k]).span is Some by {
        lemma_folds_list_prefix(nodes, nodes, r, k);
    }
}

/// Folding keeps the nodes with spans in source order.
pub proof fn lemma_folds_list_ordered(nodes: Seq<Node>, r: Seq<Node>)
    requires
        folds_list(nodes, r),
        spans_ordered(nodes),
    ensures
        spans_ordered(r),
{
    lemma_fold_groups(nodes);
    assert forall|k: int, l: int|
        0 <= k < l < r.len() && (#[trigger] r[k]).span is Some && (#[trigger] r[l]).span is Some implies r[k].span.unwrap().end
            < r[l].span.unwrap().start by {
        lemma_folds_list_prefix(nodes, nodes, r, k);
        lemma_folds_list_prefix(nodes, nodes, r, l);
        let g = fold_groups(nodes);
        assert(g[k][0] < g[l][0]);
    }
}

/// The text of the last folded node is that of its group, and it is a text
/// exactly where the group starts with one.
proof fn lemma_last_folded(init: Seq<Node>, r: Seq<Node>)
    requires
        folds_list(init, r),
        r.len() > 0,
    ensures
        r.last().kind is Text <==> init[fold_groups(init).last()[0]].kind is Text,
        text_bytes(r.last()) == joined_texts(init, fold_groups(init).last()),
        0 <= fold_groups(init).last()[0] < init.len(),
{
    lemma_folds_list_prefix(init, init, r, r.len() - 1);
}

/// The groups of `init` are those of `nodes`, `init` followed by one more
/// node, but for the last, and they fold alike.
proof fn lemma_groups_carry_over(nodes: Seq<Node>, init: Seq<Node>, r: Seq<Node>)
    requires
        nodes.len() > 0,
        init == nodes.drop_last(),
        folds_list(init, r),
    ensures
        forall|k: int|
            0 <= k < fold_groups(init).len() ==> {
                let grp = #[trigger] fold_groups(init)[k];
                &&& grp.len() >= 1
                &&& 0 <= grp[0] < init.len()
                &&& nodes[grp[0]] == init[grp[0]]
                &&& joined_texts(nodes, grp) == joined_texts(init, grp)
            },
{
    assert forall|k: int| 0 <= k < fold_groups(init).len() implies {
        let grp = #[trigger] fold_groups(init)[k];
        &&& grp.len() >= 1
        &&& 0 <= grp[0] < init.len()
        &&& nodes[grp[0]] == init[grp[0]]
        &&& joined_texts(nodes, grp) == joined_texts(init, grp)
    } by {
        lemma_folds_list_prefix(nodes, init, r, k);
    }
}

/// A block adds nothing to what folding gives.
proof fn lemma_folds_list_block(nodes: Seq<Node>, r: Seq<Node>)
    requires
        nodes.len() > 0,
        nodes.last().kind is Attributes,
        folds_list(nodes.drop_last(), r),
    ensures
        folds_list(nodes, r),
{
    let init = nodes.drop_last();
    lemma_groups_carry_over(nodes, init, r);
    assert(fold_groups(nodes) == fold_groups(init));
}

/// A node that joins no text folds into a node of its own.
proof fn lemma_folds_list_push(nodes: Seq<Node>, r: Seq<Node>, f: Node)
    requires
        nodes.len() > 0,
        !(nodes.last().kind is Attributes),
        !({
            let init = nodes.drop_last();
            &&& init.len() > 0
            &&& init.last().kind is Attributes
            &&& nodes.last().kind is Text
            &&& fold_groups(init).len() > 0
            &&& nodes[fold_groups(init).last()[0]].kind is Text
        }),
        folds_list(nodes.drop_last(), r),
        folds_node(nodes.last(), f, true),
    ensures
        folds_list(nodes, r.push(f)),
{
    let init = nodes.drop_last();
    let g = fold_groups(init);
    let i = nodes.len() - 1;
    lemma_groups_carry_over(nodes, init, r);
    assert(fold_groups(nodes) == g.push(seq![i]));
    let r2 = r.push(f);
    assert forall|k: int| 0 <= k < g.len() implies #[trigger] r2[k] == r[k] by {}
    assert(r2[g.len() as int] == f);
    assert(fold_groups(nodes)[g.len() as int] == seq![i]);
}

/// A text right after removed blocks joins the text folded before them.
proof fn lemma_folds_list_join(nodes: Seq<Node>, r: Seq<Node>, joined: Node)
    requires
        nodes.len() > 0,
        nodes.drop_last().len() > 0,
        nodes.drop_last().last().kind is Attributes,
        nodes.last().kind is Text,
        r.len() > 0,
        r.last().kind is Text,
        folds_list(nodes.drop_last(), r),
        joined.kind matches NodeKind::Text(t) && encode_utf8(t@) == joined_text(text_bytes(r.last()), text_bytes(nodes.last())),
        joined.attributes == r.last().attributes,
        joined.children == r.last().children,
        joined.span == r.last().span,
        joined.fence == r.last().fence,
    ensures
        folds_list(nodes, r.drop_last().push(joined)),
{
    let init = nodes.drop_last();
    let g = fold_groups(init);
    let i = nodes.len() - 1;
    lemma_last_folded(init, r);
    lemma_groups_carry_over(nodes, init, r);
    let last = g.len() - 1;
    let grp = g[last];
    lemma_folds_list_prefix(nodes, init, r, last);
    assert(nodes[grp[0]].kind is Text);
    let g2 = g.update(last, grp.push(i));
    assert(fold_groups(nodes) == g2);
    let r2 = r.drop_last().push(joined);
    assert forall|k: int| 0 <= k < last implies #[trigger] r2[k] == r[k] by {}
    assert(r2[last] == joined);
    assert(g2[last] == grp.push(i));
    assert(grp.push(i).drop_last() == grp);
    assert(grp.push(i).last() == i);
    assert(joined_texts(nodes, grp.push(i)) == joined_text(joined_texts(nodes, grp), text_bytes(nodes[i])));
    assert(grp.push(i)[0] == grp[0]);
    assert(grp.push(i).len() > 1);
    assert forall|k: int| 0 <= k < last implies #[trigger] g2[k] == g[k] by {}
}

/// A node that keeps everything but its kind, which becomes text, keeps
/// what holds of its tree.
proof fn lemma_retext_keeps(before: Node, after: Node)
    requires
        before.kind is Text,
        after.kind is Text,
        after.attributes == before.attributes,
        after.children == before.children,
        after.span == before.span,
        after.fence == before.fence,
    ensures
        forall|src: Seq<u8>| before.tree_in(src) ==> after.tree_in(src),
        before.folded() ==> after.folded(),
        before.text_resolved() ==> after.text_resolved(),
{
    assert forall|src: Seq<u8>| before.tree_in(src) implies after.tree_in(src) by {
        assert(before.located_in(src));
        assert forall|i: int| 0 <= i < after.children@.len() implies (#[trigger] after.children@[i]).tree_in(src) by {
            assert(before.children@[i].tree_in(src));
        }
    }
    if before.folded() {
        assert forall|i: int| 0 <= i < after.children@.len() implies (#[trigger] after.children@[i]).folded() by {
            assert(before.children@[i].folded());
        }
    }
    if before.text_resolved() {
        assert forall|i: int| 0 <= i < after.children@.len() implies (#[trigger] after.children@[i]).text_resolved() by {
            assert(before.children@[i].text_resolved());
        }
    }
}

/// Adds `node`, folded, to what folding has given so far: a text right after
/// removed blocks (`joins`) joins the text before them.
fn push_folded(result: &mut Vec<Node>, node: Node, joins: bool, Ghost(nodes): Ghost<Seq<Node>>)
    requires
        nodes.len() > 0,
        !(nodes.last().kind is Attributes),
        folds_list(nodes.drop_last(), old(result)@),
        folds_node(nodes.last(), node, true),
        joins == (nodes.drop_last().len() > 0 && nodes.drop_last().last().kind is Attributes),
    ensures
        folds_list(nodes, final(result)@),
        final(result)@ == old(result)@.push(node) || {
            &&& joins
            &&& old(result)@.len() > 0
            &&& final(result)@.len() == old(result)@.len()
            &&& final(result)@.drop_last() == old(result)@.drop_last()
            &&& old(result)@.last().kind is Text
            &&& final(result)@.last().kind is Text
            &&& final(result)@.last().attributes == old(result)@.last().attributes
            &&& final(result)@.last().children == old(result)@.last().children
            &&& final(result)@.last().span == old(result)@.last().span
            &&& final(result)@.last().fence == old(result)@.last().fence
        },
{
    let ghost before = result@;
    proof {
        if before.len() > 0 {
            lemma_last_folded(nodes.drop_last(), before);
        }
    }
    if joins {
        if let NodeKind::Text(text) = &node.kind {
            if result.len() > 0 {
                let last = result.pop().unwrap();
                if let NodeKind::Text(previous) = &last.kind {
                    let joined = join_text(previous, text);
                    let Node { attributes, children, span, fence, .. } = last;
                    result.push(Node { kind: NodeKind::Text(joined), attributes, children, span, fence });
                    proof {
                        lemma_folds_list_join(nodes, before, result@.last());
                        assert(before.drop_last().push(result@.last()) =~= result@);
                        assert(result@.drop_last() =~= before.drop_last());
                    }
                    return;
                }
                result.push(last);
                assert(result@ =~= before);
            }
        }
    }
    result.push(node);
    proof {
        lemma_folds_list_push(nodes, before, node);
    }
}

/// Folds the attribute blocks beneath one node into it.
fn fold_node(node: Node) -> (r: Node)
    requires
        !(node.kind is Attributes),
    ensures
        r.kind == node.kind,
        r.span == node.span,
        r.fence == node.fence,
        r.folded(),
        folded_into(node.attributes, r.attributes, node.children@),
        forall|src: Seq<u8>| node.tree_in(src) ==> r.tree_in(src),
        node.folded() ==> same_tree(r, node),
        node.text_resolved() ==> r.text_resolved(),
        folds_node(node, r, true),
    decreases node,
{
    let Node { kind, attributes, children, span, fence } = node;
    let mut attributes = attributes;
    let ghost before = attributes;
    let children = fold_nodes(children, &mut attributes, Ghost(span));
    let r = Node { kind, attributes, children, span, fence };
    proof {
        assert forall|src: Seq<u8>| node.tree_in(src) implies r.tree_in(src) by {
            assert(fold_ready(src, node.children@, node.attributes, node.span));
            assert(trees_in(src, r.children@));
            assert(owned_blocks_in(src, r.attributes, r.span));
            assert(r.located_in(src));
            assert forall|i: int| 0 <= i < r.children@.len() implies !((#[trigger] r.children@[i]).kind is Attributes) by {
                assert(r.children@[i].folded());
            }
            assert(r.covers_blocks(r.children@));
        }
        if node.folded() {
            assert(all_folded(node.children@));
        }
    }
    r
}

/// Folds the attribute blocks among `nodes` into `owner`, and those further
/// down into their own parents. Text that a removed block split is one run
/// again.
#[verifier::rlimit(50)]
pub(crate) fn fold_nodes(nodes: Vec<Node>, owner: &mut Owned, Ghost(span): Ghost<Option<Span>>) -> (r: Vec<Node>)
    ensures
        all_folded(r@),
        folded_into(*old(owner), *final(owner), nodes@),
        forall|src: Seq<u8>|
            #![trigger fold_ready(src, nodes@, *old(owner), span)]
            fold_ready(src, nodes@, *old(owner), span) ==> trees_in(src, r@) && owned_blocks_in(
                src,
                *final(owner),
                span,
            ),
        all_folded(nodes@) ==> same_trees(r@, nodes@) && *final(owner) == *old(owner),
        all_text_resolved(nodes@) ==> all_text_resolved(r@),
        folds_list(nodes@, r@),
        spans_ordered(nodes@) ==> spans_ordered(r@),
    decreases nodes,
{
    let ghost orig = nodes@;
    let ghost whole = nodes;
    let ghost start = *owner;
    assert(orig.len() <= usize::MAX) by {
        assert(nodes.len() == orig.len());
    }
    let mut rest = reversed(nodes);
    let mut result: Vec<Node> = Vec::new();
    let mut joins = false;
    let mut i: usize = 0;
    while rest.len() > 0
        invariant
            whole@ == orig,
            whole == nodes,
            orig.len() <= usize::MAX,
            rest@.len() + i == orig.len(),
            forall|j: int| 0 <= j < rest@.len() ==> rest@[j] == orig[orig.len() - 1 - j],
            all_folded(result@),
            folded_into(start, *owner, orig.take(i as int)),
            forall|src: Seq<u8>|
                #![trigger fold_ready(src, orig, start, span)]
                fold_ready(src, orig, start, span) ==> trees_in(src, result@) && owned_blocks_in(
                    src,
                    *owner,
                    span,
                ),
            all_folded(orig) ==> same_trees(result@, orig.take(i as int)) && *owner == start && !joins,
            all_text_resolved(orig) ==> all_text_resolved(result@),
            blocks_in_order(orig) && recorded_before(start, orig) ==> recorded_before(*owner, orig.skip(i as int)),
            folds_list(orig.take(i as int), result@),
            joins == (i > 0 && orig[i - 1].kind is Attributes),
        decreases rest@.len(),
    {
        let node = rest.pop().unwrap();
        assert(node == orig[i as int]);
        proof {
            vstd::std_specs::vec::axiom_vec_index_decreases(whole, i as int);
        }
        let ghost prefix = orig.take(i as int);
        assert(orig.take(i + 1).drop_last() =~= prefix);
        assert(orig.take(i + 1).last() == node);
        if node.is_attributes() {
            let block_span = node.attribute_block_span();
            let Node { attributes: block, .. } = node;
            let children: Vec<Attribute> = match block {
                Some(a) => {
                    let Attributes { children, .. } = *a;
                    children
                },
                None => Vec::new(),
            };
            let ghost owner_before = *owner;
            let ghost added = children@;
            push_children(owner, children, block_span);
            joins = true;
            proof {
                assert(orig.take(i + 1).drop_last() =~= orig.take(i as int));
                assert(orig.take(i + 1).last() == orig[i as int]);
                lemma_folds_list_block(orig.take(i + 1), result@);
            }
            proof {
                let whole_next = orig.take(i + 1);
                let n = orig[i as int];
                assert(added == match n.attributes {
                    Some(a) => a.children@,
                    None => Seq::<Attribute>::empty(),
                });
                assert(block_children(whole_next) == block_children(prefix) + added);
                let old_children = match owner_before {
                    Some(o) => o.children@,
                    None => Seq::<Attribute>::empty(),
                };
                let old_blocks = match owner_before {
                    Some(o) => o.blocks@,
                    None => Seq::<Span>::empty(),
                };
                let start_children = match start {
                    Some(o) => o.children@,
                    None => Seq::<Attribute>::empty(),
                };
                let start_blocks = match start {
                    Some(o) => o.blocks@,
                    None => Seq::<Span>::empty(),
                };
                assert(start_children + block_children(whole_next) =~= (start_children + block_children(prefix)) + added);
                match block_span {
                    Some(b) => {
                        assert(block_spans(whole_next) == block_spans(prefix).push(b));
                        assert(start_blocks + block_spans(whole_next) =~= (start_blocks + block_spans(prefix)) + seq![b]);
                    },
                    None => {
                        assert(block_spans(whole_next) == block_spans(prefix));
                        assert(start_blocks + block_spans(whole_next) =~= (start_blocks + block_spans(prefix)) + Seq::<Span>::empty());
                    },
                }
                if added.len() == 0 {
                    assert(block_children(whole_next) =~= block_children(prefix));
                }
            }
            proof {
                let old_blocks = match owner_before {
                    Some(o) => o.blocks@,
                    None => Seq::<Span>::empty(),
                };
                let suffix = orig.skip(i as int);
                let later = orig.skip(i + 1);
                if blocks_in_order(orig) && recorded_before(start, orig) {
                    assert(recorded_before(owner_before, suffix));
                    assert(suffix[0] == orig[i as int]);
                    match block_span {
                        Some(b) => {
                            let a = (*owner).unwrap();
                            assert(is_block(suffix[0]));
                            assert forall|k: int, m: int|
                                0 <= k < a.blocks@.len() && 0 <= m < later.len() && is_block(#[trigger] later[m]) implies (
                                #[trigger] a.blocks@[k]).end < later[m].span.unwrap().start by {
                                assert(later[m] == orig[i + 1 + m]);
                                assert(later[m] == suffix[m + 1]);
                                if k < old_blocks.len() {
                                    assert(a.blocks@[k] == old_blocks[k]);
                                } else {
                                    assert(a.blocks@[k] == b);
                                }
                            }
                        },
                        None => {
                            assert forall|k: int, m: int|
                                0 <= k < old_blocks.len() && 0 <= m < later.len() && is_block(#[trigger] later[m]) implies (
                                #[trigger] old_blocks[k]).end < later[m].span.unwrap().start by {
                                assert(later[m] == suffix[m + 1]);
                            }
                        },
                    }
                }
                assert forall|src: Seq<u8>| fold_ready(src, orig, start, span) implies owned_blocks_in(src, *owner, span) by {
                    assert(orig[i as int].tree_in(src));
                    assert(orig[i as int].located_in(src));
                    assert(owned_blocks_in(src, owner_before, span));
                    match block_span {
                        Some(b) => {
                            assert(block_span_in(src, b));
                            let a = (*owner).unwrap();
                            assert forall|k: int| 0 <= k < a.blocks@.len() implies {
                                &&& block_span_in(src, #[trigger] a.blocks@[k])
                                &&& (span matches Some(o) ==> o.covers(a.blocks@[k]))
                            } by {
                                if k < old_blocks.len() {
                                    assert(a.blocks@[k] == old_blocks[k]);
                                } else {
                                    assert(a.blocks@[k] == b);
                                }
                            }
                            assert(recorded_before(owner_before, suffix));
                            assert(suffix[0] == orig[i as int]);
                            assert(is_block(suffix[0]));
                            assert forall|k: int, l: int| 0 <= k < l < a.blocks@.len() implies (#[trigger] a.blocks@[k]).end
                                < (#[trigger] a.blocks@[l]).start by {
                                assert(a.blocks@[k] == old_blocks[k]);
                                if l < old_blocks.len() {
                                    assert(a.blocks@[l] == old_blocks[l]);
                                } else {
                                    assert(a.blocks@[l] == b);
                                    assert(old_blocks[k].end < suffix[0].span.unwrap().start);
                                }
                            }
                        },
                        None => {},
                    }
                }
            }
        } else {
            proof {
                if blocks_in_order(orig) && recorded_before(start, orig) {
                    let suffix = orig.skip(i as int);
                    let later = orig.skip(i + 1);
                    let o = *owner;
                    if o is Some {
                        let a = o.unwrap();
                        assert forall|k: int, m: int|
                            0 <= k < a.blocks@.len() && 0 <= m < later.len() && is_block(#[trigger] later[m]) implies (
                            #[trigger] a.blocks@[k]).end < later[m].span.unwrap().start by {
                            assert(later[m] == suffix[m + 1]);
                        }
                    }
                }
            }
            let node = fold_node(node);
            let ghost before_r = result@;
            proof {
                assert(orig.take(i + 1).drop_last() =~= prefix);
                assert(orig.take(i + 1).last() == orig[i as int]);
                if i > 0 {
                    assert(prefix.last() == orig[i - 1]);
                }
            }
            push_folded(&mut result, node, joins, Ghost(orig.take(i + 1)));
            proof {
                if result@ != before_r.push(node) {
                    let last = before_r.last();
                    let now = result@.last();
                    lemma_retext_keeps(last, now);
                    assert forall|k: int| 0 <= k < result@.len() - 1 implies #[trigger] result@[k] == before_r[k] by {
                        assert(result@.drop_last()[k] == before_r.drop_last()[k]);
                    }
                }
            }
            joins = false;
        }
        i = i + 1;
    }
    assert(orig.take(i as int) =~= orig);
    proof {
        if spans_ordered(orig) {
            lemma_folds_list_ordered(orig, result@);
        }
    }
    result
}

} // verus!
