use vstd::prelude::*;
use vstd::utf8::*;

use crate::node::attribute::{push_children, Attribute, Owned};
use crate::node::delimiter::{delimiter_of_pair, Delimiter};
use crate::node::marker::Marker;
use crate::span::Span;
use crate::text::{lossy_utf8, push_bytes, string_from, str_bytes, BACKTICK, LF};

verus! {

#[derive(Debug, PartialEq)]
pub enum NodeKind {
    Marker(Marker),
    Delimiter(Delimiter),
    Raw(String),
    Link(String),
    Attributes,
    Paragraph,
    Table,
    Text(String),
}

/// Spans take part in equality: two nodes with the same shape in different
/// places are not equal.
#[derive(Debug, PartialEq)]
pub struct Node {
    pub kind: NodeKind,
    pub attributes: Owned,
    pub children: Vec<Node>,
    /// Where the node is in the source, from its opening syntax through the
    /// end of its last line. Every block-level node carries one. Inline nodes
    /// do not: the inline pass reads text that has already been dedented,
    /// unescaped and rejoined.
    ///
    /// Positions live on `Node` rather than inside [`NodeKind`] on purpose:
    /// the block parser closes a block by comparing its kind to the closing
    /// line's.
    pub span: Option<Span>,
    /// A marker's opening fence line alone, where that differs from `span`.
    pub fence: Option<Span>,
}

/// Two kinds are the same kind, texts compared by their characters.
pub open spec fn same_kind(a: NodeKind, b: NodeKind) -> bool {
    match (a, b) {
        (NodeKind::Marker(x), NodeKind::Marker(y)) => x == y,
        (NodeKind::Delimiter(x), NodeKind::Delimiter(y)) => x == y,
        (NodeKind::Raw(x), NodeKind::Raw(y)) => x@ == y@,
        (NodeKind::Link(x), NodeKind::Link(y)) => x@ == y@,
        (NodeKind::Text(x), NodeKind::Text(y)) => x@ == y@,
        (NodeKind::Attributes, NodeKind::Attributes) => true,
        (NodeKind::Paragraph, NodeKind::Paragraph) => true,
        (NodeKind::Table, NodeKind::Table) => true,
        _ => false,
    }
}

/// The kind is that of a block: a marker or a delimiter.
pub(crate) fn same_block_kind(a: &NodeKind, b: &NodeKind) -> (r: bool)
    ensures
        r == (same_kind(*a, *b) && (a is Marker || a is Delimiter)),
{
    match (a, b) {
        (NodeKind::Marker(x), NodeKind::Marker(y)) => *x == *y,
        (NodeKind::Delimiter(x), NodeKind::Delimiter(y)) => *x == *y,
        _ => false,
    }
}

/// How many times `s` repeats `b` at its start.
pub open spec fn leading_run(s: Seq<u8>, b: u8) -> nat
    decreases s.len(),
{
    if s.len() > 0 && s[0] == b {
        1 + leading_run(s.drop_first(), b)
    } else {
        0
    }
}

/// `leading_run` is the length of the run of `b` at the start.
pub proof fn lemma_leading_run(s: Seq<u8>, b: u8)
    ensures
        leading_run(s, b) <= s.len(),
        forall|k: int| 0 <= k < leading_run(s, b) ==> #[trigger] s[k] == b,
        leading_run(s, b) < s.len() ==> s[leading_run(s, b) as int] != b,
    decreases s.len(),
{
    if s.len() > 0 && s[0] == b {
        lemma_leading_run(s.drop_first(), b);
        assert forall|k: int| 0 <= k < leading_run(s, b) implies #[trigger] s[k] == b by {
            if k > 0 {
                assert(s[k] == s.drop_first()[k - 1]);
            }
        }
    }
}

pub proof fn lemma_leading_run_is(s: Seq<u8>, b: u8, n: int)
    requires
        0 <= n <= s.len(),
        forall|k: int| 0 <= k < n ==> s[k] == b,
        n == s.len() || s[n] != b,
    ensures
        leading_run(s, b) == n,
    decreases n,
{
    if n > 0 {
        let rest = s.drop_first();
        assert forall|k: int| 0 <= k < n - 1 implies rest[k] == b by {
            assert(rest[k] == s[k + 1]);
        }
        if n < s.len() {
            assert(rest[n - 1] == s[n]);
        }
        lemma_leading_run_is(rest, b, n - 1);
    }
}

/// The source opens, at `start`, with the syntax of a node of this kind: a
/// marker with its marker byte, repeated as many times as its depth, a
/// delimiter with a pair that spells it, an attribute block with the
/// verbatim fence.
pub open spec fn opens_with_syntax(src: Seq<u8>, kind: NodeKind, start: int) -> bool {
    match kind {
        NodeKind::Marker(m) => {
            &&& 0 <= start < src.len()
            &&& src[start] == m.kind.byte_spec()
            &&& leading_run(src.skip(start), m.kind.byte_spec()) == m.depth
        },
        NodeKind::Delimiter(d) => 0 <= start && start + 1 < src.len() && delimiter_of_pair(
            src[start],
            src[start + 1],
        ) == Some(d),
        NodeKind::Attributes => 0 <= start && start + 1 < src.len() && src[start] == BACKTICK
            && src[start + 1] == BACKTICK,
        _ => true,
    }
}

/// An attribute block's span: it describes the source and opens with the fence.
pub open spec fn block_span_in(src: Seq<u8>, s: Span) -> bool {
    s.describes(src) && opens_with_syntax(src, NodeKind::Attributes, s.start as int)
}

/// The spans an owner's attributes record are attribute-block spans of the
/// source, within the owner's own span where it has one.
pub open spec fn owned_blocks_in(src: Seq<u8>, owned: Owned, owner: Option<Span>) -> bool {
    owned matches Some(a) ==> {
        &&& spans_in_order(a.blocks@)
        &&& forall|i: int|
            0 <= i < a.blocks@.len() ==> {
                &&& block_span_in(src, #[trigger] a.blocks@[i])
                &&& (owner matches Some(o) ==> o.covers(a.blocks@[i]))
            }
    }
}

/// The spans come in source order: each ends before the next begins.
pub open spec fn spans_in_order(spans: Seq<Span>) -> bool {
    forall|i: int, j: int| 0 <= i < j < spans.len() ==> (#[trigger] spans[i]).end < (#[trigger] spans[j]).start
}

/// The nodes that carry a span come in source order: each ends before the
/// next begins.
pub open spec fn spans_ordered(nodes: Seq<Node>) -> bool {
    forall|i: int, j: int|
        0 <= i < j < nodes.len() && (#[trigger] nodes[i]).span is Some && (#[trigger] nodes[j]).span is Some
            ==> nodes[i].span.unwrap().end < nodes[j].span.unwrap().start
}

/// The blocks an owner has recorded come before the blocks still among `nodes`.
pub open spec fn recorded_before(owned: Owned, nodes: Seq<Node>) -> bool {
    owned matches Some(a) ==> forall|k: int, m: int|
        0 <= k < a.blocks@.len() && 0 <= m < nodes.len() && is_block(#[trigger] nodes[m]) ==> (
        #[trigger] a.blocks@[k]).end < nodes[m].span.unwrap().start
}

/// A block-form attribute block: an attribute node with a span.
pub open spec fn is_block(n: Node) -> bool {
    n.kind is Attributes && n.span is Some
}

/// The attribute blocks among `nodes` come in source order.
pub open spec fn blocks_in_order(nodes: Seq<Node>) -> bool {
    forall|i: int, j: int|
        0 <= i < j < nodes.len() && is_block(#[trigger] nodes[i]) && is_block(#[trigger] nodes[j]) ==> nodes[i].span.unwrap().end
            < nodes[j].span.unwrap().start
}

impl Node {
    /// The node's own positions describe `src`: its span and fence (each a
    /// range ending at a line's end, with line numbers that count the
    /// newlines before), a marker's span opening with its marker byte and an
    /// attribute block's with the verbatim fence. A fence is the first line
    /// of a span, present on a marker whenever its span is more than that
    /// line. The blocks recorded in its attributes lie within its span.
    pub open spec fn located_in(self, src: Seq<u8>) -> bool {
        &&& (self.span matches Some(s) ==> s.describes(src) && opens_with_syntax(
            src,
            self.kind,
            s.start as int,
        ))
        &&& (self.fence matches Some(f) ==> {
            &&& self.span is Some
            &&& f.describes(src)
            &&& f.start == self.span.unwrap().start
            &&& f.start_line == f.end_line
            &&& f.start_line == self.span.unwrap().start_line
            &&& f.end <= self.span.unwrap().end
        })
        &&& ((self.span matches Some(s) && self.kind is Marker && s.end_line > s.start_line)
            ==> self.fence is Some)
        &&& owned_blocks_in(src, self.attributes, self.span)
    }

    /// A spanned attribute block among the children lies within this node's span.
    pub open spec fn covers_blocks(self, children: Seq<Node>) -> bool {
        forall|i: int|
            0 <= i < children.len() && (#[trigger] children[i]).kind is Attributes
                && children[i].span is Some && self.span is Some ==> self.span.unwrap().covers(
                children[i].span.unwrap(),
            )
    }

    /// Every node of the tree is located in `src`, its children in source
    /// order, and every attribute block lies within the span of the node that
    /// owns it, after the blocks before it and after those the node has
    /// already recorded.
    pub open spec fn tree_in(self, src: Seq<u8>) -> bool
        decreases self,
    {
        &&& self.located_in(src)
        &&& self.covers_blocks(self.children@)
        &&& blocks_in_order(self.children@)
        &&& spans_ordered(self.children@)
        &&& recorded_before(self.attributes, self.children@)
        &&& forall|i: int| 0 <= i < self.children@.len() ==> (#[trigger] self.children@[i]).tree_in(src)
    }

    /// Every child with a span lies within its parent's span, which it then
    /// has, all the way down: trees as the block pass builds them.
    pub open spec fn nested(self) -> bool
        decreases self,
    {
        &&& forall|i: int|
            0 <= i < self.children@.len() && (#[trigger] self.children@[i]).span is Some ==> self.span is Some
                && self.span.unwrap().covers(self.children@[i].span.unwrap())
        &&& forall|i: int| 0 <= i < self.children@.len() ==> (#[trigger] self.children@[i]).nested()
    }

    /// No node of the tree carries a position.
    pub open spec fn unplaced(self) -> bool
        decreases self,
    {
        &&& self.span is None
        &&& self.fence is None
        &&& (self.attributes matches Some(a) ==> a.blocks@.len() == 0)
        &&& forall|i: int| 0 <= i < self.children@.len() ==> (#[trigger] self.children@[i]).unplaced()
    }

    /// No raw text is left in the tree but the literal content of verbatim
    /// nodes: the inline pass has resolved all the rest.
    pub open spec fn text_resolved(self) -> bool
        decreases self,
    {
        &&& !(self.kind is Raw)
        &&& (self.kind != NodeKind::Delimiter(Delimiter::Verbatim) ==> forall|i: int|
            0 <= i < self.children@.len() ==> (#[trigger] self.children@[i]).text_resolved())
    }

    /// Each table row holds no more than its raw text, and an attribute node
    /// among the rows holds nothing: tables as the block pass builds them.
    pub open spec fn rows_unsplit(self) -> bool
        decreases self,
    {
        &&& (self.kind is Table ==> forall|i: int|
            0 <= i < self.children@.len() ==> row_unsplit(#[trigger] self.children@[i]))
        &&& forall|i: int| 0 <= i < self.children@.len() ==> (#[trigger] self.children@[i]).rows_unsplit()
    }

    /// No node of the tree is an attribute block.
    pub open spec fn folded(self) -> bool
        decreases self,
    {
        &&& !(self.kind is Attributes)
        &&& forall|i: int| 0 <= i < self.children@.len() ==> (#[trigger] self.children@[i]).folded()
    }
}

/// Every node of each tree is located in `src`.
pub open spec fn trees_in(src: Seq<u8>, nodes: Seq<Node>) -> bool {
    forall|i: int| 0 <= i < nodes.len() ==> (#[trigger] nodes[i]).tree_in(src)
}

/// A row holds no more than its raw text; an attribute node among the rows
/// holds nothing.
pub open spec fn row_unsplit(row: Node) -> bool {
    &&& !(row.kind is Raw)
    &&& row.children@.len() <= 1
    &&& (row.kind is Attributes ==> row.children@.len() == 0)
}

pub open spec fn all_text_resolved(nodes: Seq<Node>) -> bool {
    forall|i: int| 0 <= i < nodes.len() ==> (#[trigger] nodes[i]).text_resolved()
}

pub open spec fn all_rows_unsplit(nodes: Seq<Node>) -> bool {
    forall|i: int| 0 <= i < nodes.len() ==> (#[trigger] nodes[i]).rows_unsplit()
}

pub open spec fn all_unplaced(nodes: Seq<Node>) -> bool {
    forall|i: int| 0 <= i < nodes.len() ==> (#[trigger] nodes[i]).unplaced()
}

/// Each spanned attribute block among `nodes` lies within `owner`.
pub open spec fn blocks_within(owner: Option<Span>, nodes: Seq<Node>) -> bool {
    forall|i: int|
        0 <= i < nodes.len() && (#[trigger] nodes[i]).kind is Attributes && nodes[i].span is Some
            && owner is Some ==> owner.unwrap().covers(nodes[i].span.unwrap())
}

/// A tree without positions is located in any source.
pub proof fn lemma_unplaced_tree_in(n: Node, src: Seq<u8>)
    requires
        n.unplaced(),
    ensures
        n.tree_in(src),
    decreases n,
{
    assert forall|i: int| 0 <= i < n.children@.len() implies (#[trigger] n.children@[i]).tree_in(
        src,
    ) by {
        lemma_unplaced_tree_in(n.children@[i], src);
    }
    lemma_unplaced_in_order(n.children@);
    assert forall|i: int, j: int|
        0 <= i < j < n.children@.len() && (#[trigger] n.children@[i]).span is Some && (#[trigger] n.children@[j]).span
            is Some implies n.children@[i].span.unwrap().end < n.children@[j].span.unwrap().start by {
        assert(n.children@[i].unplaced());
    }
}

/// A tree without positions is nested.
pub proof fn lemma_unplaced_nested(n: Node)
    requires
        n.unplaced(),
    ensures
        n.nested(),
    decreases n,
{
    assert forall|i: int| 0 <= i < n.children@.len() implies (#[trigger] n.children@[i]).nested() && n.children@[i].span
        is None by {
        lemma_unplaced_nested(n.children@[i]);
    }
}

/// A node whose children carry no position is nested.
pub proof fn lemma_unplaced_children_nested(n: Node)
    requires
        all_unplaced(n.children@),
    ensures
        n.nested(),
{
    assert forall|i: int| 0 <= i < n.children@.len() implies (#[trigger] n.children@[i]).nested() && n.children@[i].span
        is None by {
        lemma_unplaced_nested(n.children@[i]);
    }
}

/// No node of `nodes` carries a span.
pub open spec fn no_spans(nodes: Seq<Node>) -> bool {
    forall|k: int| 0 <= k < nodes.len() ==> (#[trigger] nodes[k]).span is None
}

/// Every node of `nodes` with a span lies within `s`.
pub open spec fn all_within(nodes: Seq<Node>, s: Span) -> bool {
    forall|k: int| 0 <= k < nodes.len() && (#[trigger] nodes[k]).span is Some ==> s.covers(nodes[k].span.unwrap())
}

pub open spec fn all_nested(nodes: Seq<Node>) -> bool {
    forall|i: int| 0 <= i < nodes.len() ==> (#[trigger] nodes[i]).nested()
}

/// A node that is no table, and whose children have none, holds no split row.
pub proof fn lemma_leaves_unsplit(n: Node)
    requires
        !(n.kind is Table),
        forall|i: int| 0 <= i < n.children@.len() ==> (#[trigger] n.children@[i]).children@.len() == 0,
    ensures
        n.rows_unsplit(),
{
    assert forall|i: int| 0 <= i < n.children@.len() implies (#[trigger] n.children@[i]).rows_unsplit() by {
        assert(n.children@[i].children@.len() == 0);
    }
}

/// Nodes without positions hold no attribute block to order.
pub proof fn lemma_unplaced_in_order(nodes: Seq<Node>)
    requires
        all_unplaced(nodes),
    ensures
        blocks_in_order(nodes),
{
    assert forall|i: int, j: int|
        0 <= i < j < nodes.len() && is_block(#[trigger] nodes[i]) && is_block(#[trigger] nodes[j]) implies nodes[i].span.unwrap().end
            < nodes[j].span.unwrap().start by {
        assert(nodes[i].unplaced());
    }
}

/// The raw texts among `nodes`, as bytes.
pub open spec fn raw_texts(nodes: Seq<Node>) -> Seq<Seq<u8>>
    decreases nodes.len(),
{
    if nodes.len() == 0 {
        Seq::empty()
    } else {
        let rest = raw_texts(nodes.drop_last());
        match nodes.last().kind {
            NodeKind::Raw(t) => rest.push(encode_utf8(t@)),
            _ => rest,
        }
    }
}

/// Texts joined with `\n` between them.
pub open spec fn join_lines(parts: Seq<Seq<u8>>) -> Seq<u8>
    decreases parts.len(),
{
    if parts.len() == 0 {
        Seq::empty()
    } else if parts.len() == 1 {
        parts[0]
    } else {
        join_lines(parts.drop_last()) + seq![LF] + parts.last()
    }
}

impl Node {
    pub(crate) fn push_child(&mut self, child: Node)
        ensures
            final(self).children@ == old(self).children@.push(child),
            final(self).kind == old(self).kind,
            final(self).attributes == old(self).attributes,
            final(self).span == old(self).span,
            final(self).fence == old(self).fence,
    {
        self.children.push(child);
    }

    pub(crate) fn new(kind: NodeKind, attributes: Owned) -> (node: Node)
        ensures
            node.kind == kind,
            node.attributes == attributes,
            node.children@.len() == 0,
            node.span is None,
            node.fence is None,
    {
        Node { kind, attributes, children: Vec::new(), span: None, fence: None }
    }

    pub(crate) fn empty(kind: NodeKind) -> (node: Node)
        ensures
            node.kind == kind,
            node.attributes is None,
            node.children@.len() == 0,
            node.span is None,
            node.fence is None,
    {
        Node::new(kind, None)
    }

    pub(crate) fn raw(text: String) -> (node: Node)
        ensures
            node.kind == NodeKind::Raw(text),
            node.attributes is None,
            node.children@.len() == 0,
            node.span is None,
            node.fence is None,
    {
        Node::empty(NodeKind::Raw(text))
    }

    /// The parsed body of an ``attr: block.
    pub(crate) fn attributes(children: Vec<Attribute>) -> (node: Node)
        ensures
            node.kind == NodeKind::Attributes,
            children@.len() == 0 ==> node.attributes is None,
            children@.len() != 0 ==> {
                &&& node.attributes matches Some(a)
                &&& a.entries@.len() == 0
                &&& a.children@ == children@
                &&& a.blocks@.len() == 0
            },
            node.children@.len() == 0,
            node.span is None,
            node.fence is None,
    {
        let mut attributes: Owned = None;
        push_children(&mut attributes, children, None);
        Node::new(NodeKind::Attributes, attributes)
    }

    pub(crate) fn is_attributes(&self) -> (r: bool)
        ensures
            r == (self.kind is Attributes),
    {
        match self.kind {
            NodeKind::Attributes => true,
            _ => false,
        }
    }

    /// The block pass calls this on every node it builds from a source line.
    pub(crate) fn at(self, span: Span) -> (node: Node)
        ensures
            node == (Node { span: Some(span), ..self }),
    {
        Node { span: Some(span), ..self }
    }

    /// Grows this node's span to end where `closing` does. A node without a
    /// span stays without one.
    pub(crate) fn extend_to(&mut self, closing: Option<Span>)
        ensures
            final(self).span == (match (old(self).span, closing) {
                (Some(s), Some(c)) => Some(s.extended(c)),
                _ => old(self).span,
            }),
            final(self).kind == old(self).kind,
            final(self).attributes == old(self).attributes,
            final(self).children == old(self).children,
            final(self).fence == old(self).fence,
    {
        if let (Some(span), Some(closing)) = (self.span, closing) {
            self.span = Some(span.extend(closing));
        }
    }

    /// Where this `attr` block is, if it is one a tool can rewrite: only the
    /// block pass records spans, so a span on an attribute node means the
    /// block was written on its own lines.
    pub(crate) fn attribute_block_span(&self) -> (s: Option<Span>)
        ensures
            s == (if self.kind is Attributes {
                self.span
            } else {
                None
            }),
    {
        if self.is_attributes() {
            self.span
        } else {
            None
        }
    }

    /// A single raw child, or none when the text is empty.
    pub(crate) fn raw_children(text: &[u8]) -> (nodes: Vec<Node>)
        ensures
            text@.len() == 0 ==> nodes@.len() == 0,
            text@.len() != 0 ==> {
                &&& nodes@.len() == 1
                &&& nodes@[0].kind matches NodeKind::Raw(t)
                &&& t@ == lossy_utf8(text@)
                &&& (valid_utf8(text@) ==> encode_utf8(t@) == text@)
            },
            all_unplaced(nodes@),
            forall|i: int| 0 <= i < nodes@.len() ==> (#[trigger] nodes@[i]).attributes is None && nodes@[i].children@.len() == 0,
    {
        let mut nodes: Vec<Node> = Vec::new();
        if text.len() != 0 {
            nodes.push(Node::raw(string_from(text)));
        }
        nodes
    }

    /// Literal content of a verbatim node: its raw children's texts joined
    /// with source line separators.
    pub fn raw_text(&self) -> (text: String)
        ensures
            encode_utf8(text@) == join_lines(raw_texts(self.children@)),
    {
        let mut bytes: Vec<u8> = Vec::new();
        let mut any = false;
        let mut i: usize = 0;
        while i < self.children.len()
            invariant
                i <= self.children@.len(),
                bytes@ == join_lines(raw_texts(self.children@.take(i as int))),
                any == (raw_texts(self.children@.take(i as int)).len() > 0),
                valid_utf8(bytes@),
            decreases self.children@.len() - i,
        {
            let ghost before = self.children@.take(i as int);
            assert(self.children@.take(i + 1).drop_last() =~= before);
            if let NodeKind::Raw(t) = &self.children[i].kind {
                let b = str_bytes(t.as_str());
                if any {
                    proof {
                        assert(valid_utf8(seq![LF])) by {
                            reveal_with_fuel(valid_utf8, 2);
                        }
                        valid_utf8_concat(bytes@, seq![LF]);
                        assert(bytes@.push(LF) =~= bytes@ + seq![LF]);
                    }
                    bytes.push(LF);
                }
                let ghost mid = bytes@;
                push_bytes(&mut bytes, b);
                any = true;
                proof {
                    valid_utf8_concat(mid, b@);
                    let parts = raw_texts(before);
                    assert(raw_texts(self.children@.take(i + 1)) == parts.push(b@));
                    assert(parts.push(b@).drop_last() =~= parts);
                }
            }
            i = i + 1;
        }
        assert(self.children@.take(i as int) =~= self.children@);
        string_from(bytes.as_slice())
    }
}

} // verus!
