use vstd::prelude::*;
use vstd::utf8::*;

use crate::inline::attach::{
    last_content, lemma_last_content, lemma_last_content_bound, lemma_pushed_keeps, push_resolved, pushed_resolved,
};
use crate::inline::step::{
    absorbed, all_attributes, back_trimmed, flushed, front_trimmed, inline_done, node_trimmed, placed, siblings, text_node,
    top_closed, Inline,
};
use crate::node::tree::{all_text_resolved, all_unplaced, Node, NodeKind};
use crate::text::{str_bytes, string_from, lossy_utf8};
use crate::whitespace::{indent, is_ws, is_ws_byte, trailing, trim_end_spec, trim_start_spec, trailing_ws, leading_ws};

verus! {

/// The inline parser's state: what is resolved, the delimiters still open,
/// and the text not yet made a node.
pub struct Parser {
    pub resolved: Vec<Node>,
    pub stack: Vec<Node>,
    pub buffer: Vec<u8>,
}

/// The first of `nodes` that is content, skipping attribute nodes.
pub open spec fn first_content(nodes: Seq<Node>) -> Option<int>
    decreases nodes.len(),
{
    if nodes.len() == 0 {
        None
    } else if !(nodes[0].kind is Attributes) {
        Some(0)
    } else {
        match first_content(nodes.drop_first()) {
            Some(i) => Some(i + 1),
            None => None,
        }
    }
}

proof fn lemma_first_content(nodes: Seq<Node>, i: int)
    requires
        0 <= i <= nodes.len(),
        forall|k: int| 0 <= k < i ==> (#[trigger] nodes[k]).kind is Attributes,
    ensures
        i < nodes.len() && !(nodes[i].kind is Attributes) ==> first_content(nodes) == Some(i),
        i == nodes.len() ==> first_content(nodes) is None,
    decreases i,
{
    if i > 0 {
        let rest = nodes.drop_first();
        assert forall|k: int| 0 <= k < i - 1 implies (#[trigger] rest[k]).kind is Attributes by {
            assert(rest[k] == nodes[k + 1]);
        }
        lemma_first_content(rest, i - 1);
        if i < nodes.len() {
            assert(rest[i - 1] == nodes[i]);
        }
    }
}

/// A text node with the first (or the last) byte of its text left off.
fn trim_text(node: Node, at_start: bool) -> (r: Node)
    ensures
        r.kind is Text <==> node.kind is Text,
        r.kind is Attributes <==> node.kind is Attributes,
        !(node.kind is Text) ==> r == node,
        r.attributes == node.attributes,
        r.children == node.children,
        r.span == node.span,
        r.fence == node.fence,
        match node.kind {
            NodeKind::Text(t) => if encode_utf8(t@).len() > 0 {
                r.kind matches NodeKind::Text(u) && u@ == lossy_utf8(
                    if at_start {
                        encode_utf8(t@).skip(1)
                    } else {
                        encode_utf8(t@).drop_last()
                    },
                )
            } else {
                r == node
            },
            _ => r == node,
        },
{
    let Node { kind, attributes, children, span, fence } = node;
    let kind = match kind {
        NodeKind::Text(text) => {
            let b = str_bytes(text.as_str());
            if b.len() == 0 {
                NodeKind::Text(text)
            } else if at_start {
                proof {
                    assert(b@.subrange(1, b@.len() as int) =~= b@.skip(1));
                }
                NodeKind::Text(string_from(&b[1..b.len()]))
            } else {
                proof {
                    assert(b@.subrange(0, b@.len() - 1) =~= b@.drop_last());
                }
                NodeKind::Text(string_from(&b[0..b.len() - 1]))
            }
        },
        other => other,
    };
    Node { kind, attributes, children, span, fence }
}

/// At most one space at each edge of a closed delimiter's content is
/// dropped, so the delimiters can be written apart from the text.
#[verifier::rlimit(30)]
fn trim_node(node: Node) -> (r: Node)
    ensures
        r.kind == node.kind,
        r.attributes == node.attributes,
        r.span == node.span,
        r.fence == node.fence,
        r.children@.len() == node.children@.len(),
        forall|i: int| 0 <= i < r.children@.len() ==> {
            &&& (#[trigger] r.children@[i]).kind is Text <==> node.children@[i].kind is Text
            &&& (r.children@[i].kind is Attributes <==> node.children@[i].kind is Attributes)
            &&& r.children@[i].span == node.children@[i].span
            &&& r.children@[i].fence == node.children@[i].fence
            &&& r.children@[i].attributes == node.children@[i].attributes
            &&& r.children@[i].children == node.children@[i].children
            &&& (!(node.children@[i].kind is Text) ==> r.children@[i] == node.children@[i])
        },
        all_unplaced(node.children@) ==> all_unplaced(r.children@),
        node_trimmed(node, r),
{
    let mut node = node;
    let ghost given = node;
    // the first content child
    let mut i: usize = 0;
    while i < node.children.len() && node.children[i].is_attributes()
        invariant
            i <= node.children@.len(),
            node == given,
            forall|k: int| 0 <= k < i ==> (#[trigger] node.children@[k]).kind is Attributes,
        decreases node.children@.len() - i,
    {
        i = i + 1;
    }
    if i < node.children.len() {
        let trim_first = match &node.children[i].kind {
            NodeKind::Text(text) => {
                let b = str_bytes(text.as_str());
                b.len() > 0 && is_ws_byte(b[0])
            },
            _ => false,
        };
        if trim_first {
            let child = node.children.remove(i);
            node.children.insert(i, trim_text(child, true));
        }
    }
    let ghost middle = node;
    assert forall|k: int| 0 <= k < node.children@.len() && k != i implies node.children@[k] == given.children@[k] by {}
    proof {
        lemma_first_content(given.children@, i as int);
        assert(front_trimmed(given.children@, middle.children@));
    }
    // the last content child
    let mut j = node.children.len();
    while j > 0 && node.children[j - 1].is_attributes()
        invariant
            j <= node.children@.len(),
            node == middle,
            forall|k: int| j <= k < node.children@.len() ==> (#[trigger] node.children@[k]).kind is Attributes,
        decreases j,
    {
        j = j - 1;
    }
    if j > 0 {
        let trim_last = match &node.children[j - 1].kind {
            NodeKind::Text(text) => {
                let b = str_bytes(text.as_str());
                b.len() > 0 && is_ws_byte(b[b.len() - 1])
            },
            _ => false,
        };
        if trim_last {
            let child = node.children.remove(j - 1);
            node.children.insert(j - 1, trim_text(child, false));
        }
    }
    proof {
        assert forall|k: int| 0 <= k < node.children@.len() && k != j - 1 implies node.children@[k] == middle.children@[k] by {}
        lemma_last_content(middle.children@, j - 1);
        assert(back_trimmed(middle.children@, node.children@));
        assert(node_trimmed(given, node));
        if all_unplaced(given.children@) {
            assert forall|k: int| 0 <= k < middle.children@.len() implies (#[trigger] middle.children@[k]).unplaced() by {
                assert(given.children@[k].unplaced());
            }
            assert forall|k: int| 0 <= k < node.children@.len() implies (#[trigger] node.children@[k]).unplaced() by {
                assert(middle.children@[k].unplaced());
            }
        }
    }
    node
}

/// Trimming the texts among a node's children keeps it resolved.
proof fn lemma_trim_keeps_resolved(node: Node, r: Node)
    requires
        node.text_resolved(),
        r.kind == node.kind,
        r.children@.len() == node.children@.len(),
        forall|i: int| 0 <= i < r.children@.len() ==> {
            &&& (#[trigger] r.children@[i]).kind is Text <==> node.children@[i].kind is Text
            &&& r.children@[i].children == node.children@[i].children
            &&& (!(node.children@[i].kind is Text) ==> r.children@[i] == node.children@[i])
        },
    ensures
        r.text_resolved(),
{
    if r.kind != NodeKind::Delimiter(crate::node::delimiter::Delimiter::Verbatim) {
        assert forall|i: int| 0 <= i < r.children@.len() implies (#[trigger] r.children@[i]).text_resolved() by {
            let c = node.children@[i];
            let t = r.children@[i];
            assert(c.text_resolved());
            if c.kind is Text {
                assert forall|k: int| 0 <= k < t.children@.len() implies (#[trigger] t.children@[k]).text_resolved() by {
                    assert(t.children@[k] == c.children@[k]);
                }
            }
        }
    }
}

impl Parser {
    /// What the parser holds, as the steps of the inline pass describe it.
    pub open spec fn inline(self) -> Inline {
        Inline { resolved: self.resolved@, stack: self.stack@, buffer: self.buffer@ }
    }

    pub open spec fn wf(self) -> bool {
        &&& all_unplaced(self.resolved@)
        &&& all_unplaced(self.stack@)
        &&& all_text_resolved(self.resolved@)
        &&& all_text_resolved(self.stack@)
    }

    pub(crate) fn new() -> (p: Parser)
        ensures
            p.wf(),
            p.resolved@.len() == 0,
            p.stack@.len() == 0,
            p.buffer@.len() == 0,
    {
        Parser { resolved: Vec::new(), stack: Vec::new(), buffer: Vec::new() }
    }

    /// Pushes a node where the parser stands: into the innermost open
    /// delimiter, else among the resolved nodes.
    pub(crate) fn push_node(&mut self, node: Node)
        requires
            old(self).wf(),
            node.unplaced(),
            node.text_resolved(),
        ensures
            final(self).wf(),
            final(self).buffer == old(self).buffer,
            final(self).stack@.len() == old(self).stack@.len(),
            old(self).stack@.len() == 0 ==> pushed_resolved(old(self).resolved@, node, final(self).resolved@),
            old(self).stack@.len() > 0 ==> final(self).resolved == old(self).resolved && pushed_resolved(
                old(self).stack@.last().children@,
                node,
                final(self).stack@.last().children@,
            ),
            placed(old(self).inline(), node, final(self).inline()),
    {
        let ghost s = self.inline();
        match self.stack.pop() {
            Some(open) => {
                let ghost top = open;
                let mut open = open;
                let ghost kids = open.children@;
                push_resolved(&mut open.children, node);
                proof {
                    lemma_pushed_keeps(kids, node, open.children@);
                    assert(top.unplaced());
                    assert(open.unplaced());
                }
                self.stack.push(open);
                proof {
                    assert forall|i: int| 0 <= i < self.stack@.len() implies (#[trigger] self.stack@[i]).unplaced() by {
                        if i < self.stack@.len() - 1 {
                            assert(self.stack@[i] == old(self).stack@[i]);
                        }
                    }
                    assert(self.inline().stack.drop_last() =~= s.stack.drop_last());
                }
            },
            None => {
                let ghost before = self.resolved@;
                push_resolved(&mut self.resolved, node);
                proof {
                    lemma_pushed_keeps(before, node, self.resolved@);
                }
            },
        }
    }

    pub(crate) fn push_char(&mut self, byte: u8)
        ensures
            final(self).inline() == (Inline { buffer: old(self).buffer@.push(byte), ..old(self).inline() }),
            final(self).buffer@ == old(self).buffer@.push(byte),
            final(self).resolved == old(self).resolved,
            final(self).stack == old(self).stack,
    {
        self.buffer.push(byte);
    }

    /// The buffered text, if any, becomes a text node.
    pub(crate) fn flush(&mut self)
        requires
            old(self).wf(),
        ensures
            final(self).wf(),
            final(self).buffer@.len() == 0,
            final(self).stack@.len() == old(self).stack@.len(),
            old(self).buffer@.len() == 0 ==> *final(self) == *old(self),
            flushed(old(self).inline(), final(self).inline()),
    {
        if self.buffer.len() > 0 {
            let text = string_from(self.buffer.as_slice());
            self.buffer = Vec::new();
            let ghost s0 = self.inline();
            assert(s0 =~= Inline { buffer: Seq::empty(), ..old(self).inline() });
            let n = Node::empty(NodeKind::Text(text));
            self.push_node(n);
            proof {
                assert(text_node(n, old(self).buffer@));
                assert(placed(s0, n, self.inline()));
            }
        }
    }

    /// Closes the innermost open delimiter: its content is trimmed and the
    /// node pushed where the parser then stands.
    pub(crate) fn close_node(&mut self)
        requires
            old(self).wf(),
        ensures
            final(self).wf(),
            final(self).buffer@.len() == 0,
            old(self).stack@.len() > 0 ==> final(self).stack@.len() == old(self).stack@.len() - 1,
            old(self).stack@.len() == 0 ==> final(self).stack@.len() == 0,
            top_closed(old(self).inline(), final(self).inline()),
    {
        self.flush();
        let ghost m = self.inline();
        let node = match self.stack.pop() {
            Some(node) => node,
            None => {
                return;
            },
        };
        let ghost n = node;
        let node = trim_node(node);
        proof {
            assert(n.unplaced());
            assert(node.unplaced());
            assert(n.text_resolved());
            lemma_trim_keeps_resolved(n, node);
            assert(self.inline() =~= Inline { stack: m.stack.drop_last(), ..m });
        }
        let ghost m0 = self.inline();
        self.push_node(node);
        proof {
            assert(node_trimmed(m.stack.last(), node) && placed(m0, node, self.inline()));
        }
    }

    /// Closes whatever is still open and returns the resolved nodes.
    pub(crate) fn collect(self) -> (nodes: Vec<Node>)
        requires
            self.wf(),
        ensures
            all_unplaced(nodes@),
            all_text_resolved(nodes@),
            inline_done(self.inline(), nodes@),
    {
        let ghost start = self.inline();
        let mut p = self;
        while p.stack.len() > 0
            invariant
                p.wf(),
                forall|r: Seq<Node>| #![trigger inline_done(p.inline(), r)] inline_done(p.inline(), r) ==> inline_done(start, r),
            decreases p.stack@.len(),
        {
            let ghost here = p.inline();
            p.close_node();
            proof {
                let t = p.inline();
                assert forall|r: Seq<Node>| #![trigger inline_done(t, r)] inline_done(t, r) implies inline_done(start, r) by {
                    assert(top_closed(here, t) && t.stack.len() < here.stack.len());
                    assert(inline_done(here, r));
                }
            }
        }
        let ghost here = p.inline();
        p.flush();
        proof {
            assert(flushed(here, p.inline()));
            assert(inline_done(here, p.resolved@));
        }
        p.resolved
    }

    /// An attribute node takes the whitespace separating it from the
    /// content, but only at the edges of its parent: inside, the space is
    /// prose. Returns where the input continues.
    pub(crate) fn absorb_separator(&mut self, text: &[u8], pos: usize) -> (next: usize)
        requires
            pos <= text.len(),
        ensures
            pos <= next <= text.len(),
            final(self).resolved == old(self).resolved,
            final(self).stack == old(self).stack,
            final(self).buffer@.len() <= old(self).buffer@.len(),
            final(self).buffer@ == old(self).buffer@.take(final(self).buffer@.len() as int),
            (final(self).buffer@, next as int) == absorbed(old(self).inline(), text@, pos as int),
    {
        let input = &text[pos..text.len()];
        let skip = indent(input);
        let rest = &input[skip..input.len()];
        let kept = self.buffer.len() - trailing(self.buffer.as_slice());
        let n = self.stack.len();
        let mut only_attributes = true;
        let mut i: usize = 0;
        if n > 0 {
            while i < self.stack[n - 1].children.len()
                invariant
                    n == self.stack@.len(),
                    n > 0,
                    i <= self.stack@[n - 1].children@.len(),
                    only_attributes == forall|k: int| 0 <= k < i ==> (#[trigger] self.stack@[n - 1].children@[k]).kind is Attributes,
                decreases self.stack@[n - 1].children@.len() - i,
            {
                if !self.stack[n - 1].children[i].is_attributes() {
                    only_attributes = false;
                }
                i = i + 1;
            }
        } else {
            while i < self.resolved.len()
                invariant
                    i <= self.resolved@.len(),
                    only_attributes == forall|k: int| 0 <= k < i ==> (#[trigger] self.resolved@[k]).kind is Attributes,
                decreases self.resolved@.len() - i,
            {
                if !self.resolved[i].is_attributes() {
                    only_attributes = false;
                }
                i = i + 1;
            }
        }
        let leading = kept == 0 && only_attributes;
        let trailing_edge = rest.len() == 0 || (n > 0 && match &self.stack[n - 1].kind {
            NodeKind::Delimiter(delimiter) => delimiter.closes_bytes(rest),
            _ => false,
        });
        proof {
            let s0 = old(self).inline();
            assert(input@ =~= text@.skip(pos as int));
            assert(rest@ =~= input@.skip(skip as int));
            assert(only_attributes == all_attributes(siblings(s0)));
            assert(trailing_edge == (rest@.len() == 0 || (s0.stack.len() > 0 && (s0.stack.last().kind matches NodeKind::Delimiter(d)
                && d.closing_spec() is Some && crate::text::starts_with_pair(rest@, d.closing_spec().unwrap())))));
            assert(kept == s0.buffer.len() - trailing_ws(s0.buffer));
        }
        let ghost s0 = old(self).inline();
        let ghost expected = absorbed(s0, text@, pos as int);
        if leading || trailing_edge {
            self.buffer.truncate(kept);
            proof {
                assert(self.buffer@ =~= s0.buffer.take(kept as int));
                assert(expected.0 == s0.buffer.take(kept as int));
                assert(expected.1 == pos + skip);
            }
            pos + skip
        } else {
            proof {
                assert(expected.0 == s0.buffer);
                assert(expected.1 == pos);
            }
            pos
        }
    }
}

} // verus!
